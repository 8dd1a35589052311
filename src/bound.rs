//! A bound on how many distinct edges can end at one position: what makes the
//! worklist loops terminate.
use vstd::arithmetic::div_mod::lemma_fundamental_div_mod_converse;
use vstd::prelude::*;
use vstd::set_lib::{lemma_int_range, lemma_len_subset, lemma_map_size_bound, set_int_range};

use crate::model::{shaped, EdgeModel, RuleModel};

verus! {

/// The length of the longest right-hand side of `g`.
pub open spec fn max_rhs(g: Seq<RuleModel>) -> nat
    decreases g.len(),
{
    if g.len() == 0 {
        0
    } else {
        let m = max_rhs(g.drop_last());
        let l = g.last().rhs.len();
        if l > m {
            l
        } else {
            m
        }
    }
}

/// How many distinct edges ending at `k` there can be at most.
pub open spec fn edge_bound(g: Seq<RuleModel>, k: int) -> int {
    k * ((g.len() + 1) * (max_rhs(g) + 1))
}

proof fn lemma_max_rhs(g: Seq<RuleModel>)
    ensures
        forall|i: int| 0 <= i < g.len() ==> (#[trigger] g[i]).rhs.len() <= max_rhs(g),
    decreases g.len(),
{
    if g.len() > 0 {
        lemma_max_rhs(g.drop_last());
        assert forall|i: int| 0 <= i < g.len() implies (#[trigger] g[i]).rhs.len() <= max_rhs(g) by {
            if i < g.len() - 1 {
                assert(g[i] == g.drop_last()[i]);
            }
        }
    }
}

/// The edge ending at `k` with code `c`: a start position, then a rule index
/// (one past the last for a scanned token), then a dot.
spec fn decode(g: Seq<RuleModel>, w: Seq<Seq<char>>, k: int, c: int) -> EdgeModel {
    let m: int = max_rhs(g) as int + 1;
    let gm: int = (g.len() as int + 1) * m;
    let start = c / gm;
    let r = c % gm;
    let ri = r / m;
    if ri == g.len() {
        EdgeModel { start, end: k, lhs: w[start], rhs: Seq::empty(), dot: 0 }
    } else {
        EdgeModel { start, end: k, lhs: g[ri].lhs, rhs: g[ri].rhs, dot: r % m }
    }
}

/// Distinct well-shaped edges that all end at `k` number at most `edge_bound(g, k)`.
pub proof fn lemma_bucket_bound(g: Seq<RuleModel>, w: Seq<Seq<char>>, k: int, s: Seq<EdgeModel>)
    requires
        1 <= k,
        s.no_duplicates(),
        forall|j: int| 0 <= j < s.len() ==> shaped(g, w, #[trigger] s[j]) && s[j].end == k,
    ensures
        s.len() <= edge_bound(g, k),
{
    lemma_max_rhs(g);
    let m: int = max_rhs(g) as int + 1;
    let gl: int = g.len() as int + 1;
    let gm: int = gl * m;
    let b: int = k * gm;
    assert(gm > 0 && b == edge_bound(g, k) && b >= 0) by (nonlinear_arith)
        requires
            m > 0,
            gl > 0,
            gm == gl * m,
            b == k * gm,
            k >= 1,
            edge_bound(g, k) == k * (gl * m),
    ;
    lemma_int_range(0, b);
    let x = set_int_range(0, b);
    let f = |c: int| decode(g, w, k, c);
    lemma_map_size_bound(x, x.map(f), f);
    assert forall|e: EdgeModel| s.to_set().contains(e) implies x.map(f).contains(e) by {
        let j = choose|j: int| 0 <= j < s.len() && s[j] == e;
        assert(shaped(g, w, s[j]));
        let ri: int = if e.rhs.len() == 0 {
            g.len() as int
        } else {
            choose|i: int|
                0 <= i < g.len() && #[trigger] g[i].lhs == e.lhs && g[i].rhs == e.rhs && 1 <= e.dot
                    <= e.rhs.len() && 0 <= e.start < e.end <= w.len()
        };
        let d: int = if e.rhs.len() == 0 {
            0
        } else {
            e.dot
        };
        assert(0 <= d < m);
        let r: int = ri * m + d;
        assert(0 <= r < gm) by (nonlinear_arith)
            requires
                0 <= ri < gl,
                0 <= d < m,
                gm == gl * m,
                r == ri * m + d,
        ;
        let c: int = e.start * gm + r;
        lemma_fundamental_div_mod_converse(c, gm, e.start, r);
        lemma_fundamental_div_mod_converse(r, m, ri, d);
        assert(0 <= c < b) by (nonlinear_arith)
            requires
                0 <= e.start < k,
                0 <= r < gm,
                c == e.start * gm + r,
                b == k * gm,
        ;
        if e.rhs.len() == 0 {
            assert(e.rhs =~= Seq::empty());
            assert(decode(g, w, k, c) == e);
        } else {
            assert(decode(g, w, k, c) == e);
        }
        assert(x.contains(c));
    }
    lemma_len_subset(s.to_set(), x.map(f));
    s.unique_seq_to_set();
}

} // verus!
