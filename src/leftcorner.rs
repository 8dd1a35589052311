//! The left-corner index: for each symbol, the rules whose right-hand side
//! begins with it.
use vstd::prelude::*;

use crate::model::{grammar_ok, RuleModel};
use crate::types::{rules, Rule};

verus! {

/// The rules whose right-hand side begins with `symbol`, as indices into the
/// grammar, in grammar order.
pub struct LeftCorner {
    pub symbol: String,
    pub rules: Vec<usize>,
}

/// The indices `i < n` of the rules of `g` whose left corner is `s`, ascending.
pub open spec fn corner_rules(g: Seq<RuleModel>, s: Seq<char>, n: int) -> Seq<int>
    decreases n,
{
    if n <= 0 {
        Seq::empty()
    } else {
        let r = corner_rules(g, s, n - 1);
        if g[n - 1].rhs[0] == s {
            r.push(n - 1)
        } else {
            r
        }
    }
}

/// A sequence of indices as integers.
pub open spec fn indices(v: Seq<usize>) -> Seq<int> {
    v.map_values(|u: usize| u as int)
}

/// `idx` indexes the first `n` rules of `g`: one entry per distinct left
/// corner, listing exactly the rules it starts; a symbol without an entry
/// starts none of them.
pub open spec fn indexes(g: Seq<RuleModel>, idx: Seq<LeftCorner>, n: int) -> bool {
    &&& forall|t: int, u: int|
        0 <= t < u < idx.len() ==> (#[trigger] idx[t]).symbol@ != (#[trigger] idx[u]).symbol@
    &&& forall|t: int|
        0 <= t < idx.len() ==> indices((#[trigger] idx[t]).rules@) == corner_rules(
            g,
            idx[t].symbol@,
            n,
        ) && idx[t].rules.len() > 0
    &&& forall|s: Seq<char>|
        (forall|t: int| 0 <= t < idx.len() ==> (#[trigger] idx[t]).symbol@ != s) ==> #[trigger] corner_rules(
            g,
            s,
            n,
        ) == Seq::<int>::empty()
}

/// What `corner_rules` lists: ascending indices below `n` of rules starting with `s`, all of them.
pub proof fn lemma_corner_rules(g: Seq<RuleModel>, s: Seq<char>, n: int)
    requires
        0 <= n <= g.len(),
    ensures
        forall|m: int|
            0 <= m < corner_rules(g, s, n).len() ==> 0 <= #[trigger] corner_rules(g, s, n)[m] < n
                && g[corner_rules(g, s, n)[m]].rhs[0] == s,
        forall|i: int| 0 <= i < n && g[i].rhs[0] == s ==> #[trigger] corner_rules(g, s, n).contains(i),
    decreases n,
{
    if n > 0 {
        lemma_corner_rules(g, s, n - 1);
        let r = corner_rules(g, s, n - 1);
        assert forall|i: int| 0 <= i < n && g[i].rhs[0] == s implies #[trigger] corner_rules(
            g,
            s,
            n,
        ).contains(i) by {
            if i < n - 1 {
                assert(r.contains(i));
                let m = choose|m: int| 0 <= m < r.len() && r[m] == i;
                assert(corner_rules(g, s, n)[m] == i);
            } else {
                assert(corner_rules(g, s, n)[r.len() as int] == i);
            }
        }
    }
}

/// The entry of `index` for `s`, if there is one.
pub(crate) fn find_corner(index: &Vec<LeftCorner>, s: &String) -> (r: Option<usize>)
    ensures
        match r {
            Some(t) => t < index.len() && index@[t as int].symbol@ == s@,
            None => forall|t: int| 0 <= t < index.len() ==> (#[trigger] index@[t]).symbol@ != s@,
        },
{
    let mut t: usize = 0;
    while t < index.len()
        invariant
            t <= index.len(),
            forall|u: int| 0 <= u < t ==> (#[trigger] index@[u]).symbol@ != s@,
        decreases index.len() - t,
    {
        if index[t].symbol == *s {
            return Some(t);
        }
        t = t + 1;
    }
    None
}

/// Builds the left-corner index of `grammar`.
pub fn leftcorners_dict(grammar: &[Rule]) -> (index: Vec<LeftCorner>)
    requires
        grammar_ok(rules(grammar@)),
    ensures
        indexes(rules(grammar@), index@, grammar@.len() as int),
{
    let ghost g = rules(grammar@);
    let mut index: Vec<LeftCorner> = Vec::new();
    let mut i: usize = 0;
    while i < grammar.len()
        invariant
            i <= grammar.len(),
            g == rules(grammar@),
            grammar_ok(g),
            indexes(g, index@, i as int),
        decreases grammar.len() - i,
    {
        let rule = &grammar[i];
        assert(g[i as int] == rule@);
        let lc = &rule.rhs[0];
        let ghost s = lc@;
        let ghost old_index = index@;
        let ghost mut tk: int = 0;
        match find_corner(&index, lc) {
            Some(t) => {
                index[t].rules.push(i);
                proof {
                    tk = t as int;
                }
                proof {
                    assert(indices(index@[t as int].rules@) =~= indices(
                        old_index[t as int].rules@,
                    ).push(i as int));
                }
            },
            None => {
                let mut v: Vec<usize> = Vec::new();
                v.push(i);
                index.push(LeftCorner { symbol: lc.clone(), rules: v });
                proof {
                    tk = old_index.len() as int;
                    assert(corner_rules(g, s, i as int) == Seq::<int>::empty());
                    assert(indices(v@) =~= seq![i as int]);
                }
            },
        }
        proof {
            assert forall|t: int| 0 <= t < index@.len() implies indices(
                (#[trigger] index@[t]).rules@,
            ) == corner_rules(g, index@[t].symbol@, i + 1) && index@[t].rules.len() > 0 by {
                if t < old_index.len() {
                    assert(old_index[t].symbol@ == index@[t].symbol@);
                    assert(indices(old_index[t].rules@) == corner_rules(g, old_index[t].symbol@, i as int));
                }
            }
            assert forall|s2: Seq<char>|
                (forall|t: int| 0 <= t < index@.len() ==> (#[trigger] index@[t]).symbol@ != s2) implies #[trigger] corner_rules(
                g,
                s2,
                i + 1,
            ) == Seq::<int>::empty() by {
                assert forall|t: int| 0 <= t < old_index.len() implies (#[trigger] old_index[t]).symbol@ != s2 by {
                    assert(index@[t].symbol@ == old_index[t].symbol@);
                }
                if s2 == s {
                    assert(index@[tk].symbol@ == s);
                } else {
                    assert(g[i as int].rhs[0] == s);
                    assert(corner_rules(g, s2, i + 1) == corner_rules(g, s2, i as int));
                }
            }
        }
        i = i + 1;
    }
    index
}

} // verus!
