//! What a recognizer keeps true of its buckets while it fills them, and why a
//! chart of closed buckets holds every derivable edge.
use vstd::prelude::*;

use crate::model::{
    advanced, closed, completes, lemma_valid_shaped, predicted, predicts, scan_edge, valid,
    EdgeModel, RuleModel,
};
use crate::types::{edges, Edge};

verus! {

/// Every edge of `b` is derivable and ends at `k`.
pub open spec fn sound(g: Seq<RuleModel>, w: Seq<Seq<char>>, k: int, b: Seq<EdgeModel>) -> bool {
    forall|j: int| 0 <= j < b.len() ==> valid(g, w, #[trigger] b[j]) && b[j].end == k
}

pub proof fn lemma_sound_contains(
    g: Seq<RuleModel>,
    w: Seq<Seq<char>>,
    k: int,
    b: Seq<EdgeModel>,
    x: EdgeModel,
)
    requires
        sound(g, w, k, b),
        b.contains(x),
    ensures
        valid(g, w, x),
        x.end == k,
{
    let j = choose|j: int| 0 <= j < b.len() && b[j] == x;
    assert(valid(g, w, b[j]));
}

/// `x` is recorded in `b` or still waits on the agenda `ag`.
pub open spec fn held(b: Seq<EdgeModel>, ag: Seq<EdgeModel>, x: EdgeModel) -> bool {
    b.contains(x) || ag.contains(x)
}

/// Bucket `b` for position `k`, together with the agenda `ag`, holds the scanned
/// token and every edge that an edge of `b` predicts or completes against the
/// earlier buckets of `cv`.
pub open spec fn closed_at(
    g: Seq<RuleModel>,
    w: Seq<Seq<char>>,
    cv: Seq<Seq<EdgeModel>>,
    k: int,
    b: Seq<EdgeModel>,
    ag: Seq<EdgeModel>,
) -> bool {
    &&& held(b, ag, scan_edge(w, k))
    &&& forall|p: EdgeModel, i: int|
        b.contains(p) && predicts(g, p, i) ==> held(b, ag, #[trigger] predicted(g[i], p))
    &&& forall|a: EdgeModel, p: EdgeModel|
        b.contains(p) && 0 <= p.start < k && cv[p.start].contains(a) && completes(a, p) ==> held(
            b,
            ag,
            #[trigger] advanced(a, p),
        )
}

/// The obligations of `x` in bucket `k`, met by `b` and `ag`.
pub open spec fn obligations_met(
    g: Seq<RuleModel>,
    cv: Seq<Seq<EdgeModel>>,
    k: int,
    b: Seq<EdgeModel>,
    ag: Seq<EdgeModel>,
    x: EdgeModel,
) -> bool {
    &&& forall|i: int| predicts(g, x, i) ==> held(b, ag, #[trigger] predicted(g[i], x))
    &&& forall|a: EdgeModel|
        0 <= x.start < k && cv[x.start].contains(a) && completes(a, x) ==> held(
            b,
            ag,
            #[trigger] advanced(a, x),
        )
}

/// One step of a worklist: `x` left the agenda and is recorded, either already
/// or now with its obligations met.
pub proof fn lemma_closed_at_step(
    g: Seq<RuleModel>,
    w: Seq<Seq<char>>,
    cv: Seq<Seq<EdgeModel>>,
    k: int,
    b: Seq<EdgeModel>,
    ag: Seq<EdgeModel>,
    b2: Seq<EdgeModel>,
    ag2: Seq<EdgeModel>,
    x: EdgeModel,
)
    requires
        closed_at(g, w, cv, k, b, ag),
        forall|y: EdgeModel| held(b, ag, y) ==> #[trigger] held(b2, ag2, y),
        forall|p: EdgeModel| #[trigger] b2.contains(p) ==> b.contains(p) || p == x,
        b.contains(x) || obligations_met(g, cv, k, b2, ag2, x),
    ensures
        closed_at(g, w, cv, k, b2, ag2),
{
    assert(held(b2, ag2, scan_edge(w, k)));
    assert forall|p: EdgeModel, i: int|
        b2.contains(p) && predicts(g, p, i) implies held(b2, ag2, #[trigger] predicted(g[i], p)) by {
        if b.contains(p) {
            assert(held(b, ag, predicted(g[i], p)));
        }
    }
    assert forall|a: EdgeModel, p: EdgeModel|
        b2.contains(p) && 0 <= p.start < k && cv[p.start].contains(a) && completes(
            a,
            p,
        ) implies held(b2, ag2, #[trigger] advanced(a, p)) by {
        if b.contains(p) {
            assert(held(b, ag, advanced(a, p)));
        }
    }
}

/// The invariants of a chart whose buckets `0..cv.len()` are final.
pub open spec fn chart_inv(g: Seq<RuleModel>, w: Seq<Seq<char>>, cv: Seq<Seq<EdgeModel>>) -> bool {
    &&& cv.len() >= 1
    &&& cv[0].len() == 0
    &&& forall|j: int| 0 <= j < cv.len() ==> sound(g, w, j, #[trigger] cv[j])
    &&& forall|j: int| 0 <= j < cv.len() ==> (#[trigger] cv[j]).no_duplicates()
    &&& forall|j: int| 1 <= j < cv.len() ==> closed_at(g, w, cv, j, #[trigger] cv[j], Seq::empty())
}

pub proof fn lemma_edges_push(s: Seq<Edge>, e: Edge)
    ensures
        edges(s.push(e)) == edges(s).push(e@),
        forall|x: EdgeModel| #[trigger]
            edges(s.push(e)).contains(x) <==> (edges(s).contains(x) || x == e@),
{
    assert(edges(s.push(e)) =~= edges(s).push(e@));
    assert forall|x: EdgeModel| #[trigger]
        edges(s.push(e)).contains(x) <==> (edges(s).contains(x) || x == e@) by {
        if edges(s).contains(x) {
            let j = choose|j: int| 0 <= j < edges(s).len() && edges(s)[j] == x;
            assert(edges(s.push(e))[j] == x);
        }
        if x == e@ {
            assert(edges(s.push(e))[s.len() as int] == x);
        }
        if edges(s.push(e)).contains(x) {
            let j = choose|j: int| 0 <= j < edges(s.push(e)).len() && edges(s.push(e))[j] == x;
            if j < s.len() {
                assert(edges(s)[j] == x);
            }
        }
    }
}

/// A bucket's closure speaks only of the buckets before it.
pub proof fn lemma_closed_at_extend(
    g: Seq<RuleModel>,
    w: Seq<Seq<char>>,
    cv: Seq<Seq<EdgeModel>>,
    cv2: Seq<Seq<EdgeModel>>,
    k: int,
    b: Seq<EdgeModel>,
    ag: Seq<EdgeModel>,
)
    requires
        closed_at(g, w, cv, k, b, ag),
        cv.len() >= k,
        cv2.len() >= k,
        forall|i: int| 0 <= i < k ==> cv2[i] == cv[i],
    ensures
        closed_at(g, w, cv2, k, b, ag),
{
    assert forall|a: EdgeModel, p: EdgeModel|
        b.contains(p) && 0 <= p.start < k && cv2[p.start].contains(a) && completes(
            a,
            p,
        ) implies held(b, ag, #[trigger] advanced(a, p)) by {
        assert(cv2[p.start] == cv[p.start]);
    }
}

/// Appending a final bucket keeps the chart's invariants.
pub proof fn lemma_chart_inv_push(
    g: Seq<RuleModel>,
    w: Seq<Seq<char>>,
    cv: Seq<Seq<EdgeModel>>,
    b: Seq<EdgeModel>,
)
    requires
        chart_inv(g, w, cv),
        sound(g, w, cv.len() as int, b),
        b.no_duplicates(),
        closed_at(g, w, cv, cv.len() as int, b, Seq::empty()),
    ensures
        chart_inv(g, w, cv.push(b)),
{
    let cv2 = cv.push(b);
    assert forall|j: int| 1 <= j < cv2.len() implies closed_at(
        g,
        w,
        cv2,
        j,
        #[trigger] cv2[j],
        Seq::empty(),
    ) by {
        if j < cv.len() {
            assert(cv2[j] == cv[j]);
            lemma_closed_at_extend(g, w, cv, cv2, j, cv[j], Seq::empty());
        } else {
            lemma_closed_at_extend(g, w, cv, cv2, j, b, Seq::empty());
        }
    }
    assert forall|j: int| 0 <= j < cv2.len() implies sound(g, w, j, #[trigger] cv2[j]) by {
        if j < cv.len() {
            assert(cv2[j] == cv[j]);
        }
    }
    assert forall|j: int| 0 <= j < cv2.len() implies (#[trigger] cv2[j]).no_duplicates() by {
        if j < cv.len() {
            assert(cv2[j] == cv[j]);
        }
    }
}

/// A chart of `len(w) + 1` closed buckets holds every derivable edge, in the
/// bucket of its end position.
pub proof fn lemma_chart_complete(
    g: Seq<RuleModel>,
    w: Seq<Seq<char>>,
    cv: Seq<Seq<EdgeModel>>,
    e: EdgeModel,
)
    requires
        chart_inv(g, w, cv),
        cv.len() == w.len() + 1,
        valid(g, w, e),
    ensures
        0 < e.end < cv.len(),
        cv[e.end].contains(e),
{
    let u = Set::new(|x: EdgeModel| 0 <= x.end < cv.len() && cv[x.end].contains(x));
    assert forall|k: int| 1 <= k <= w.len() implies u.contains(#[trigger] scan_edge(w, k)) by {
        assert(closed_at(g, w, cv, k, cv[k], Seq::empty()));
    }
    assert forall|p: EdgeModel, i: int| u.contains(p) && predicts(g, p, i) implies u.contains(
        #[trigger] predicted(g[i], p),
    ) by {
        let j = p.end;
        if j == 0 {
            assert(cv[0].contains(p));
        }
        assert(closed_at(g, w, cv, j, cv[j], Seq::empty()));
    }
    assert forall|a: EdgeModel, p: EdgeModel|
        u.contains(a) && u.contains(p) && completes(a, p) implies u.contains(
        #[trigger] advanced(a, p),
    ) by {
        let j = p.end;
        let m = choose|m: int| 0 <= m < cv[j].len() && cv[j][m] == p;
        assert(sound(g, w, j, cv[j]));
        lemma_valid_shaped(g, w, cv[j][m]);
        assert(closed_at(g, w, cv, j, cv[j], Seq::empty()));
    }
    assert(closed(g, w, u));
    assert(u.contains(e));
    lemma_valid_shaped(g, w, e);
}

} // verus!
