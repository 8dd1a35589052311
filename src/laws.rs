//! Properties of recognition that relate several calls or hold of every input.
use vstd::prelude::*;

use crate::model::{chart_of, derives, lemma_valid_shaped, published, EdgeModel, RuleModel};
use crate::query::succeeds;

verus! {

/// Two charts of the same grammar and input hold the same edges in each
/// bucket, and as many of them.
proof fn lemma_same_chart(
    g: Seq<RuleModel>,
    w: Seq<Seq<char>>,
    c1: Seq<Seq<EdgeModel>>,
    c2: Seq<Seq<EdgeModel>>,
)
    requires
        chart_of(g, w, c1),
        chart_of(g, w, c2),
    ensures
        c1.len() == c2.len(),
        forall|k: int| 0 <= k < c1.len() ==> (#[trigger] c1[k]).to_set() == c2[k].to_set(),
        forall|k: int| 0 <= k < c1.len() ==> (#[trigger] c1[k]).len() == c2[k].len(),
{
    assert forall|k: int| 0 <= k < c1.len() implies (#[trigger] c1[k]).to_set() == c2[k].to_set()
        && c1[k].len() == c2[k].len() by {
        assert forall|e: EdgeModel| c1[k].to_set().contains(e) <==> c2[k].to_set().contains(e) by {
            assert(c1[k].contains(e) <==> published(g, w, k, e));
            assert(c2[k].contains(e) <==> published(g, w, k, e));
        }
        assert(c1[k].to_set() =~= c2[k].to_set());
        c1[k].unique_seq_to_set();
        c2[k].unique_seq_to_set();
    }
}

/// The baseline and the left-corner recognizer publish the same edges in
/// each bucket: `c1` is what `earley1` returns and `c2` what `earley2`
/// returns for the same grammar and input.
pub proof fn lemma_engines_agree(
    g: Seq<RuleModel>,
    w: Seq<Seq<char>>,
    c1: Seq<Seq<EdgeModel>>,
    c2: Seq<Seq<EdgeModel>>,
)
    requires
        chart_of(g, w, c1),
        chart_of(g, w, c2),
    ensures
        c1.len() == c2.len(),
        forall|k: int| 0 <= k < c1.len() ==> (#[trigger] c1[k]).to_set() == c2[k].to_set(),
{
    lemma_same_chart(g, w, c1, c2);
}

/// Recognizing the same input twice gives charts with the same edges in each
/// bucket, each bucket of the same size, whatever order the worklist took.
pub proof fn lemma_deterministic(
    g: Seq<RuleModel>,
    w: Seq<Seq<char>>,
    c1: Seq<Seq<EdgeModel>>,
    c2: Seq<Seq<EdgeModel>>,
)
    requires
        chart_of(g, w, c1),
        chart_of(g, w, c2),
    ensures
        c1.len() == c2.len(),
        forall|k: int| 0 <= k < c1.len() ==> (#[trigger] c1[k]).to_set() == c2[k].to_set(),
        forall|k: int| 0 <= k < c1.len() ==> (#[trigger] c1[k]).len() == c2[k].len(),
{
    lemma_same_chart(g, w, c1, c2);
}

/// The success query on a recognizer's chart holds exactly when the input
/// derives the category from the start position by scan, predict and complete.
pub proof fn lemma_success_iff_derives(
    g: Seq<RuleModel>,
    w: Seq<Seq<char>>,
    c: Seq<Seq<EdgeModel>>,
    cat: Seq<char>,
    start: int,
)
    requires
        chart_of(g, w, c),
    ensures
        succeeds(c, cat, start) <==> derives(g, w, cat, start),
{
    let n = w.len() as int;
    assert(c.last() == c[n]);
    if succeeds(c, cat, start) {
        let e = choose|e: EdgeModel|
            c.last().contains(e) && e.start == start && e.lhs == cat && e.passive();
        assert(c[n].contains(e));
        assert(published(g, w, n, e));
    }
    if derives(g, w, cat, start) {
        let e = choose|e: EdgeModel|
            published(g, w, n, e) && e.start == start && e.lhs == cat;
        assert(c[n].contains(e));
    }
}

/// On the empty input the chart is one empty bucket, and no category succeeds.
pub proof fn lemma_empty_input(g: Seq<RuleModel>, c: Seq<Seq<EdgeModel>>, cat: Seq<char>, start: int)
    requires
        chart_of(g, Seq::empty(), c),
    ensures
        c.len() == 1,
        c[0].len() == 0,
        !succeeds(c, cat, start),
{
    let w = Seq::<Seq<char>>::empty();
    if c[0].len() > 0 {
        assert(c[0].contains(c[0][0]));
        lemma_valid_shaped(g, w, c[0][0]);
    }
    assert(c.last() == c[0]);
    if succeeds(c, cat, start) {
        let e = choose|e: EdgeModel|
            c.last().contains(e) && e.start == start && e.lhs == cat && e.passive();
        let j = choose|j: int| 0 <= j < c[0].len() && c[0][j] == e;
    }
}

/// Every published edge is passive and spans `0 <= start < end == k <= len(w)`
/// in the bucket `k` that holds it.
pub proof fn lemma_edges_well_formed(g: Seq<RuleModel>, w: Seq<Seq<char>>, c: Seq<Seq<EdgeModel>>)
    requires
        chart_of(g, w, c),
    ensures
        forall|k: int, j: int|
            0 <= k < c.len() && 0 <= j < c[k].len() ==> (#[trigger] c[k][j]).passive() && 0
                <= c[k][j].start < c[k][j].end && c[k][j].end == k && k <= w.len(),
{
    assert forall|k: int, j: int| 0 <= k < c.len() && 0 <= j < c[k].len() implies (
    #[trigger] c[k][j]).passive() && 0 <= c[k][j].start < c[k][j].end && c[k][j].end == k && k
        <= w.len() by {
        assert(c[k].contains(c[k][j]));
        lemma_valid_shaped(g, w, c[k][j]);
    }
}

} // verus!
