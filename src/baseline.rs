//! The baseline recognizer: a worklist per input position that predicts over
//! every rule and completes over every edge of the bucket it extends.
use vstd::prelude::*;

use crate::bound::{edge_bound, lemma_bucket_bound};
use crate::closure::{
    chart_inv, closed_at, held, lemma_chart_complete, lemma_chart_inv_push, lemma_closed_at_step,
    lemma_edges_push, obligations_met, sound,
};
use crate::model::{
    advanced, chart_of, completes, grammar_ok, lemma_advanced_valid, lemma_predicted_valid,
    lemma_scan_valid, lemma_valid_shaped, predicted, predicts, published, scan_edge, shaped, valid,
    EdgeModel, RuleModel,
};
use crate::types::{
    buckets, contains_edge, copy_syms, edges, rules, syms, words, Chart, Edge, Rule,
};

verus! {

/// Pushes onto `agenda` each edge that a rule of `grammar` starts over the passive `edge`.
fn predict_into(
    grammar: &[Rule],
    edge: &Edge,
    agenda: &mut Vec<Edge>,
    Ghost(w): Ghost<Seq<Seq<char>>>,
)
    requires
        grammar_ok(rules(grammar@)),
        edge@.passive(),
        valid(rules(grammar@), w, edge@),
        sound(rules(grammar@), w, edge@.end, edges(old(agenda)@)),
    ensures
        sound(rules(grammar@), w, edge@.end, edges(final(agenda)@)),
        forall|x: EdgeModel|
            edges(old(agenda)@).contains(x) ==> #[trigger] edges(final(agenda)@).contains(x),
        forall|i: int|
            predicts(rules(grammar@), edge@, i) ==> edges(final(agenda)@).contains(
                #[trigger] predicted(rules(grammar@)[i], edge@),
            ),
{
    let ghost g = rules(grammar@);
    let ghost a0 = edges(agenda@);
    let mut ri: usize = 0;
    while ri < grammar.len()
        invariant
            ri <= grammar.len(),
            g == rules(grammar@),
            grammar_ok(g),
            edge@.passive(),
            valid(g, w, edge@),
            sound(g, w, edge@.end, edges(agenda@)),
            forall|x: EdgeModel| a0.contains(x) ==> #[trigger] edges(agenda@).contains(x),
            forall|i: int|
                0 <= i < ri && predicts(g, edge@, i) ==> edges(agenda@).contains(
                    #[trigger] predicted(g[i], edge@),
                ),
        decreases grammar.len() - ri,
    {
        let rule = &grammar[ri];
        assert(g[ri as int] == rule@);
        if rule.rhs[0] == edge.lhs {
            let ne = Edge {
                start: edge.start,
                end: edge.end,
                lhs: rule.lhs.clone(),
                rhs: copy_syms(&rule.rhs),
                dot: 1,
            };
            proof {
                lemma_predicted_valid(g, w, edge@, ri as int);
                assert(ne@ == predicted(g[ri as int], edge@));
                lemma_edges_push(agenda@, ne);
            }
            agenda.push(ne);
        }
        ri = ri + 1;
    }
}

/// Pushes onto `agenda` each edge of `bucket` advanced over the passive `edge`.
pub(crate) fn complete_into(
    bucket: &Vec<Edge>,
    edge: &Edge,
    agenda: &mut Vec<Edge>,
    Ghost(g): Ghost<Seq<RuleModel>>,
    Ghost(w): Ghost<Seq<Seq<char>>>,
)
    requires
        edge@.passive(),
        valid(g, w, edge@),
        sound(g, w, edge@.start, edges(bucket@)),
        sound(g, w, edge@.end, edges(old(agenda)@)),
    ensures
        sound(g, w, edge@.end, edges(final(agenda)@)),
        forall|x: EdgeModel|
            edges(old(agenda)@).contains(x) ==> #[trigger] edges(final(agenda)@).contains(x),
        forall|a: EdgeModel|
            edges(bucket@).contains(a) && completes(a, edge@) ==> edges(final(agenda)@).contains(
                #[trigger] advanced(a, edge@),
            ),
{
    let ghost a0 = edges(agenda@);
    let ghost bv = edges(bucket@);
    let mut bi: usize = 0;
    while bi < bucket.len()
        invariant
            bi <= bucket.len(),
            bv == edges(bucket@),
            edge@.passive(),
            valid(g, w, edge@),
            sound(g, w, edge@.start, bv),
            sound(g, w, edge@.end, edges(agenda@)),
            forall|x: EdgeModel| a0.contains(x) ==> #[trigger] edges(agenda@).contains(x),
            forall|j: int|
                0 <= j < bi && completes(bv[j], edge@) ==> edges(agenda@).contains(
                    #[trigger] advanced(bv[j], edge@),
                ),
        decreases bucket.len() - bi,
    {
        let e = &bucket[bi];
        proof {
            assert(bv[bi as int] == e@);
            lemma_valid_shaped(g, w, e@);
            assert(e@.rhs.len() == e.rhs.len());
        }
        if !e.is_passive() && e.rhs[e.dot] == edge.lhs {
            let ne = Edge {
                start: e.start,
                end: edge.end,
                lhs: e.lhs.clone(),
                rhs: copy_syms(&e.rhs),
                dot: e.dot + 1,
            };
            proof {
                lemma_advanced_valid(g, w, e@, edge@);
                assert(ne@ == advanced(e@, edge@));
                lemma_edges_push(agenda@, ne);
            }
            agenda.push(ne);
        }
        bi = bi + 1;
    }
    assert forall|a: EdgeModel| bv.contains(a) && completes(a, edge@) implies edges(
        agenda@,
    ).contains(#[trigger] advanced(a, edge@)) by {
        let j = choose|j: int| 0 <= j < bv.len() && bv[j] == a;
        assert(completes(bv[j], edge@));
    }
}

/// The bucket for position `chart.len()`: the token `word` and everything that
/// scan, predict and complete derive from it over the final buckets of `chart`.
fn fill_bucket(
    grammar: &[Rule],
    chart: &Vec<Vec<Edge>>,
    word: &str,
    Ghost(w): Ghost<Seq<Seq<char>>>,
) -> (bucket: Vec<Edge>)
    requires
        grammar_ok(rules(grammar@)),
        1 <= chart.len() <= w.len(),
        word@ == w[chart.len() - 1],
        chart_inv(rules(grammar@), w, buckets(chart@)),
    ensures
        sound(rules(grammar@), w, chart.len() as int, edges(bucket@)),
        edges(bucket@).no_duplicates(),
        closed_at(rules(grammar@), w, buckets(chart@), chart.len() as int, edges(bucket@), Seq::empty()),
{
    let ghost g = rules(grammar@);
    let ghost cv = buckets(chart@);
    let k = chart.len();
    let mut edgeset: Vec<Edge> = Vec::new();
    let mut agenda: Vec<Edge> = Vec::new();
    let scanned = Edge { start: k - 1, end: k, lhs: word.to_owned(), rhs: Vec::new(), dot: 0 };
    proof {
        assert(syms(scanned.rhs@) =~= Seq::empty());
        assert(scanned@ == scan_edge(w, k as int));
        lemma_scan_valid(g, w, k as int);
        lemma_edges_push(agenda@, scanned);
        lemma_bucket_bound(g, w, k as int, Seq::empty());
        assert(edges(edgeset@) =~= Seq::empty());
    }
    agenda.push(scanned);
    while agenda.len() > 0
        invariant
            g == rules(grammar@),
            cv == buckets(chart@),
            k == chart.len(),
            1 <= k <= w.len(),
            grammar_ok(g),
            chart_inv(g, w, cv),
            sound(g, w, k as int, edges(edgeset@)),
            sound(g, w, k as int, edges(agenda@)),
            edges(edgeset@).no_duplicates(),
            edgeset.len() <= edge_bound(g, k as int),
            closed_at(g, w, cv, k as int, edges(edgeset@), edges(agenda@)),
        decreases edge_bound(g, k as int) - edgeset.len(), agenda.len(),
    {
        let ghost b0 = edges(edgeset@);
        let ghost av0 = agenda@;
        let ghost ag0 = edges(agenda@);
        let edge = agenda.pop().unwrap();
        let ghost ag1 = edges(agenda@);
        proof {
            assert(av0 =~= agenda@.push(edge));
            lemma_edges_push(agenda@, edge);
            assert(sound(g, w, k as int, ag1)) by {
                assert forall|j: int| 0 <= j < ag1.len() implies valid(g, w, #[trigger] ag1[j])
                    && ag1[j].end == k by {
                    assert(ag1[j] == ag0[j]);
                }
            }
            assert(valid(g, w, ag0[ag0.len() - 1]));
            lemma_valid_shaped(g, w, edge@);
        }
        if !contains_edge(&edgeset, &edge) {
            if edge.is_passive() {
                predict_into(grammar, &edge, &mut agenda, Ghost(w));
                let ghost ag2 = edges(agenda@);
                proof {
                    assert(cv[edge.start as int] == edges(chart@[edge.start as int]@));
                    assert(sound(g, w, edge.start as int, cv[edge.start as int]));
                }
                complete_into(&chart[edge.start], &edge, &mut agenda, Ghost(g), Ghost(w));
                proof {
                    assert(cv[edge.start as int] == edges(chart@[edge.start as int]@));
                    assert forall|i: int| predicts(g, edge@, i) implies #[trigger] edges(
                        agenda@,
                    ).contains(predicted(g[i], edge@)) by {
                        assert(ag2.contains(predicted(g[i], edge@)));
                    }
                }
            }
            let ghost ag3 = edges(agenda@);
            proof {
                lemma_edges_push(edgeset@, edge);
                let b2 = b0.push(edge@);
                assert(obligations_met(g, cv, k as int, b2, ag3, edge@));
                assert forall|y: EdgeModel| held(b0, ag0, y) implies #[trigger] held(b2, ag3, y) by {
                    if ag1.contains(y) {
                        assert(ag3.contains(y));
                    }
                }
                lemma_closed_at_step(g, w, cv, k as int, b0, ag0, b2, ag3, edge@);
                assert(b2.no_duplicates()) by {
                    assert forall|i: int, j: int|
                        0 <= i < b2.len() && 0 <= j < b2.len() && i != j implies b2[i] != b2[j] by {
                        if i < b0.len() && j < b0.len() {
                        } else if i < b0.len() {
                            assert(b0.contains(b2[i]));
                        } else if j < b0.len() {
                            assert(b0.contains(b2[j]));
                        }
                    }
                }
                assert forall|j: int| 0 <= j < b2.len() implies shaped(g, w, #[trigger] b2[j])
                    && b2[j].end == k by {
                    if j < b0.len() {
                        lemma_valid_shaped(g, w, b0[j]);
                    }
                }
                lemma_bucket_bound(g, w, k as int, b2);
            }
            edgeset.push(edge);
        } else {
            proof {
                assert forall|y: EdgeModel| held(b0, ag0, y) implies #[trigger] held(b0, ag1, y) by {}
                lemma_closed_at_step(g, w, cv, k as int, b0, ag0, b0, ag1, edge@);
            }
        }
    }
    edgeset
}

/// The passive edges of `b`, in order.
fn passive_edges(b: &Vec<Edge>) -> (r: Vec<Edge>)
    ensures
        forall|x: EdgeModel| #[trigger]
            edges(r@).contains(x) <==> (edges(b@).contains(x) && x.passive()),
        edges(b@).no_duplicates() ==> edges(r@).no_duplicates(),
{
    let ghost bv = edges(b@);
    let mut r: Vec<Edge> = Vec::new();
    let mut i: usize = 0;
    proof {
        assert(edges(r@) =~= Seq::empty());
    }
    while i < b.len()
        invariant
            i <= b.len(),
            bv == edges(b@),
            forall|x: EdgeModel| #[trigger]
                edges(r@).contains(x) <==> (bv.subrange(0, i as int).contains(x) && x.passive()),
            bv.no_duplicates() ==> edges(r@).no_duplicates(),
        decreases b.len() - i,
    {
        let e = &b[i];
        let ghost rv = edges(r@);
        proof {
            let s0 = bv.subrange(0, i as int);
            let s1 = bv.subrange(0, i + 1);
            assert forall|x: EdgeModel| s1.contains(x) <==> (s0.contains(x) || x == e@) by {
                if s1.contains(x) {
                    let j = choose|j: int| 0 <= j < s1.len() && s1[j] == x;
                    if j < i {
                        assert(s0[j] == x);
                    }
                }
                if s0.contains(x) {
                    let j = choose|j: int| 0 <= j < s0.len() && s0[j] == x;
                    assert(s1[j] == x);
                }
                if x == e@ {
                    assert(s1[i as int] == x);
                }
            }
        }
        if e.is_passive() {
            let c = e.copy();
            proof {
                lemma_edges_push(r@, c);
                if bv.no_duplicates() {
                    assert(!rv.contains(e@)) by {
                        if rv.contains(e@) {
                            let s0 = bv.subrange(0, i as int);
                            let j = choose|j: int| 0 <= j < s0.len() && s0[j] == e@;
                            assert(bv[j] == bv[i as int]);
                        }
                    }
                    let r2 = rv.push(c@);
                    assert forall|p: int, q: int|
                        0 <= p < r2.len() && 0 <= q < r2.len() && p != q implies r2[p] != r2[q] by {
                        if p < rv.len() && q < rv.len() {
                        } else if p < rv.len() {
                            assert(rv.contains(r2[p]));
                        } else if q < rv.len() {
                            assert(rv.contains(r2[q]));
                        }
                    }
                }
            }
            r.push(c);
        }
        i = i + 1;
    }
    assert(bv.subrange(0, i as int) =~= bv);
    r
}

/// The published chart: the passive edges of each final bucket.
pub(crate) fn publish(
    chart: &Vec<Vec<Edge>>,
    Ghost(g): Ghost<Seq<RuleModel>>,
    Ghost(w): Ghost<Seq<Seq<char>>>,
) -> (result: Chart)
    requires
        chart_inv(g, w, buckets(chart@)),
        chart.len() == w.len() + 1,
    ensures
        chart_of(g, w, result@),
{
    let ghost cv = buckets(chart@);
    let mut result = Chart::new();
    let mut j: usize = 0;
    while j < chart.len()
        invariant
            j <= chart.len(),
            cv == buckets(chart@),
            chart.len() == w.len() + 1,
            chart_inv(g, w, cv),
            result@.len() == j,
            forall|m: int| 0 <= m < j ==> (#[trigger] result@[m]).no_duplicates(),
            forall|m: int, e: EdgeModel|
                0 <= m < j ==> (#[trigger] result@[m].contains(e) <==> published(g, w, m, e)),
        decreases chart.len() - j,
    {
        let part = passive_edges(&chart[j]);
        proof {
            assert(cv[j as int] == edges(chart@[j as int]@));
            assert(sound(g, w, j as int, cv[j as int]));
            assert(cv[j as int].no_duplicates());
            assert forall|e: EdgeModel| #[trigger]
                edges(part@).contains(e) <==> published(g, w, j as int, e) by {
                if edges(part@).contains(e) {
                    let m = choose|m: int| 0 <= m < cv[j as int].len() && cv[j as int][m] == e;
                }
                if published(g, w, j as int, e) {
                    lemma_chart_complete(g, w, cv, e);
                }
            }
            assert(buckets(result.chart@.push(part)) =~= result@.push(edges(part@)));
        }
        result.chart.push(part);
        j = j + 1;
    }
    result
}

/// Recognizes `input` under `grammar` with the baseline worklist: bucket `k`
/// of the result holds each derivable passive edge ending at `k`, once.
pub fn earley1(grammar: &[Rule], input: &[&str]) -> (result: Chart)
    requires
        grammar_ok(rules(grammar@)),
    ensures
        chart_of(rules(grammar@), words(input@), result@),
{
    let ghost g = rules(grammar@);
    let ghost w = words(input@);
    let mut chart: Vec<Vec<Edge>> = Vec::new();
    chart.push(Vec::new());
    proof {
        assert(buckets(chart@)[0] =~= Seq::empty());
    }
    let mut i: usize = 0;
    while i < input.len()
        invariant
            g == rules(grammar@),
            w == words(input@),
            grammar_ok(g),
            i <= input.len(),
            chart.len() == i + 1,
            chart_inv(g, w, buckets(chart@)),
        decreases input.len() - i,
    {
        let bucket = fill_bucket(grammar, &chart, input[i], Ghost(w));
        proof {
            lemma_chart_inv_push(g, w, buckets(chart@), edges(bucket@));
            assert(buckets(chart@.push(bucket)) =~= buckets(chart@).push(edges(bucket@)));
        }
        chart.push(bucket);
        i = i + 1;
    }
    publish(&chart, Ghost(g), Ghost(w))
}

} // verus!
