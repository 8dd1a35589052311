//! The mathematical model of recognition: edges as values, and the Earley
//! deduction system (scan, predict, complete) that defines which edges hold.
use vstd::prelude::*;

verus! {

/// A rule as a value: a left-hand symbol and its right-hand symbol sequence.
pub struct RuleModel {
    pub lhs: Seq<char>,
    pub rhs: Seq<Seq<char>>,
}

/// A dotted edge as a value.
pub struct EdgeModel {
    pub start: int,
    pub end: int,
    pub lhs: Seq<char>,
    pub rhs: Seq<Seq<char>>,
    pub dot: int,
}

impl EdgeModel {
    pub open spec fn passive(self) -> bool {
        self.dot == self.rhs.len()
    }
}

/// Every rule has a non-empty right-hand side.
pub open spec fn grammar_ok(g: Seq<RuleModel>) -> bool {
    forall|i: int| 0 <= i < g.len() ==> (#[trigger] g[i]).rhs.len() > 0
}

/// The passive edge for the token at position `k - 1`.
pub open spec fn scan_edge(w: Seq<Seq<char>>, k: int) -> EdgeModel {
    EdgeModel { start: k - 1, end: k, lhs: w[k - 1], rhs: Seq::empty(), dot: 0 }
}

/// Rule `i` has the passive edge `p` as its left corner.
pub open spec fn predicts(g: Seq<RuleModel>, p: EdgeModel, i: int) -> bool {
    &&& 0 <= i < g.len()
    &&& p.passive()
    &&& g[i].rhs.len() > 0
    &&& g[i].rhs[0] == p.lhs
}

/// The edge that rule `r` starts over the passive edge `p`.
pub open spec fn predicted(r: RuleModel, p: EdgeModel) -> EdgeModel {
    EdgeModel { start: p.start, end: p.end, lhs: r.lhs, rhs: r.rhs, dot: 1 }
}

/// The active edge `a` waits for what the passive edge `p` provides, where `a` ends.
pub open spec fn completes(a: EdgeModel, p: EdgeModel) -> bool {
    &&& 0 <= a.dot < a.rhs.len()
    &&& p.passive()
    &&& a.end == p.start
    &&& a.rhs[a.dot] == p.lhs
}

/// The edge `a` with its dot moved past the constituent `p`.
pub open spec fn advanced(a: EdgeModel, p: EdgeModel) -> EdgeModel {
    EdgeModel { start: a.start, end: p.end, lhs: a.lhs, rhs: a.rhs, dot: a.dot + 1 }
}

/// `s` holds every scanned token and is closed under predict and complete.
pub open spec fn closed(g: Seq<RuleModel>, w: Seq<Seq<char>>, s: Set<EdgeModel>) -> bool {
    &&& forall|k: int| 1 <= k <= w.len() ==> s.contains(#[trigger] scan_edge(w, k))
    &&& forall|p: EdgeModel, i: int|
        s.contains(p) && predicts(g, p, i) ==> s.contains(#[trigger] predicted(g[i], p))
    &&& forall|a: EdgeModel, p: EdgeModel|
        s.contains(a) && s.contains(p) && completes(a, p) ==> s.contains(#[trigger] advanced(a, p))
}

/// `e` is derivable by scan, predict and complete: it lies in every closed set,
/// that is, in the least one.
pub open spec fn valid(g: Seq<RuleModel>, w: Seq<Seq<char>>, e: EdgeModel) -> bool {
    forall|s: Set<EdgeModel>| closed(g, w, s) ==> #[trigger] s.contains(e)
}

/// What position `k` of a recognizer's result holds: the valid passive edges ending at `k`.
pub open spec fn published(g: Seq<RuleModel>, w: Seq<Seq<char>>, k: int, e: EdgeModel) -> bool {
    &&& e.passive()
    &&& e.end == k
    &&& valid(g, w, e)
}

/// `c` is the chart of `w` under `g`: one bucket per input boundary, bucket `k`
/// holding each published edge of `k` exactly once.
pub open spec fn chart_of(g: Seq<RuleModel>, w: Seq<Seq<char>>, c: Seq<Seq<EdgeModel>>) -> bool {
    &&& c.len() == w.len() + 1
    &&& forall|k: int| 0 <= k < c.len() ==> (#[trigger] c[k]).no_duplicates()
    &&& forall|k: int, e: EdgeModel|
        0 <= k < c.len() ==> (#[trigger] c[k].contains(e) <==> published(g, w, k, e))
}

/// `w` derives `cat` from position `start` to its end.
pub open spec fn derives(g: Seq<RuleModel>, w: Seq<Seq<char>>, cat: Seq<char>, start: int) -> bool {
    exists|e: EdgeModel|
        #![trigger valid(g, w, e)]
        published(g, w, w.len() as int, e) && e.start == start && e.lhs == cat
}

/// The forms a derivable edge can take: a scanned token, or a rule of `g`
/// with at least one symbol confirmed.
pub open spec fn shaped(g: Seq<RuleModel>, w: Seq<Seq<char>>, e: EdgeModel) -> bool {
    ||| e.rhs.len() == 0 && e.dot == 0 && 0 <= e.start && e.end == e.start + 1 && e.end <= w.len()
        && e.lhs == w[e.start]
    ||| exists|i: int|
        0 <= i < g.len() && #[trigger] g[i].lhs == e.lhs && g[i].rhs == e.rhs && 1 <= e.dot
            <= e.rhs.len() && 0 <= e.start < e.end <= w.len()
}

pub proof fn lemma_shaped_closed(g: Seq<RuleModel>, w: Seq<Seq<char>>)
    ensures
        closed(g, w, Set::new(|e: EdgeModel| shaped(g, w, e))),
{
    let s = Set::new(|e: EdgeModel| shaped(g, w, e));
    assert forall|p: EdgeModel, i: int| s.contains(p) && predicts(g, p, i) implies s.contains(
        #[trigger] predicted(g[i], p),
    ) by {
        let e = predicted(g[i], p);
        assert(g[i].lhs == e.lhs);
    }
    assert forall|a: EdgeModel, p: EdgeModel|
        s.contains(a) && s.contains(p) && completes(a, p) implies s.contains(
        #[trigger] advanced(a, p),
    ) by {
        let i = choose|i: int|
            0 <= i < g.len() && #[trigger] g[i].lhs == a.lhs && g[i].rhs == a.rhs && 1 <= a.dot
                <= a.rhs.len() && 0 <= a.start < a.end <= w.len();
        let e = advanced(a, p);
        assert(g[i].lhs == e.lhs);
    }
}

/// Every derivable edge is a scanned token or a rule instance, with
/// `0 <= start < end <= len(w)` and `0 <= dot <= len(rhs)`.
pub proof fn lemma_valid_shaped(g: Seq<RuleModel>, w: Seq<Seq<char>>, e: EdgeModel)
    requires
        valid(g, w, e),
    ensures
        shaped(g, w, e),
        0 <= e.start < e.end <= w.len(),
        0 <= e.dot <= e.rhs.len(),
{
    lemma_shaped_closed(g, w);
    let s = Set::new(|x: EdgeModel| shaped(g, w, x));
    assert(s.contains(e));
}

pub proof fn lemma_scan_valid(g: Seq<RuleModel>, w: Seq<Seq<char>>, k: int)
    requires
        1 <= k <= w.len(),
    ensures
        valid(g, w, scan_edge(w, k)),
{
    assert forall|s: Set<EdgeModel>| closed(g, w, s) implies #[trigger] s.contains(
        scan_edge(w, k),
    ) by {}
}

pub proof fn lemma_predicted_valid(g: Seq<RuleModel>, w: Seq<Seq<char>>, p: EdgeModel, i: int)
    requires
        valid(g, w, p),
        predicts(g, p, i),
    ensures
        valid(g, w, predicted(g[i], p)),
{
    assert forall|s: Set<EdgeModel>| closed(g, w, s) implies #[trigger] s.contains(
        predicted(g[i], p),
    ) by {
        assert(s.contains(p));
    }
}

pub proof fn lemma_advanced_valid(g: Seq<RuleModel>, w: Seq<Seq<char>>, a: EdgeModel, p: EdgeModel)
    requires
        valid(g, w, a),
        valid(g, w, p),
        completes(a, p),
    ensures
        valid(g, w, advanced(a, p)),
{
    assert forall|s: Set<EdgeModel>| closed(g, w, s) implies #[trigger] s.contains(
        advanced(a, p),
    ) by {
        assert(s.contains(a));
        assert(s.contains(p));
    }
}

} // verus!
