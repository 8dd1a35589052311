//! Queries on a finished chart, and the demonstration sentences.
use vstd::prelude::*;

use crate::model::EdgeModel;
use crate::types::{edges, Chart};

verus! {

/// The last bucket of `c` holds a passive edge for `cat` from `start`.
pub open spec fn succeeds(c: Seq<Seq<EdgeModel>>, cat: Seq<char>, start: int) -> bool {
    exists|e: EdgeModel|
        #![trigger c.last().contains(e)]
        c.last().contains(e) && e.start == start && e.lhs == cat && e.passive()
}

/// Whether the whole input derives `cat` from position `start`.
pub fn success(chart: &Chart, cat: &str, start: usize) -> (r: bool)
    requires
        chart.chart.len() > 0,
    ensures
        r == succeeds(chart@, cat@, start as int),
{
    let last = &chart.chart[chart.chart.len() - 1];
    let ghost lv = edges(last@);
    assert(chart@.last() == lv);
    let wanted = cat.to_owned();
    let mut i: usize = 0;
    while i < last.len()
        invariant
            i <= last.len(),
            lv == edges(last@),
            wanted@ == cat@,
            chart.chart.len() > 0,
            chart@.last() == lv,
            forall|j: int|
                0 <= j < i ==> !((#[trigger] lv[j]).start == start && lv[j].lhs == cat@
                    && lv[j].passive()),
        decreases last.len() - i,
    {
        let e = &last[i];
        assert(lv[i as int] == e@);
        if e.start == start && e.lhs == wanted && e.is_passive() {
            assert(lv.contains(e@));
            assert(chart@.last() == lv);
            assert(chart@.last().contains(e@));
            return true;
        }
        i = i + 1;
    }
    assert forall|e: EdgeModel| lv.contains(e) implies !(e.start == start && e.lhs == cat@
        && e.passive()) by {
        let j = choose|j: int| 0 <= j < lv.len() && lv[j] == e;
    }
    false
}

/// The number of edges in all buckets of `c`.
pub open spec fn total(c: Seq<Seq<EdgeModel>>) -> int
    decreases c.len(),
{
    if c.len() == 0 {
        0
    } else {
        total(c.drop_last()) + c.last().len()
    }
}

proof fn lemma_total_prefix(c: Seq<Seq<EdgeModel>>, i: int)
    requires
        0 <= i <= c.len(),
    ensures
        0 <= total(c.subrange(0, i)) <= total(c),
    decreases c.len(),
{
    if i == c.len() {
        assert(c.subrange(0, i) =~= c);
        if c.len() > 0 {
            lemma_total_prefix(c.drop_last(), i - 1);
            assert(c.drop_last().subrange(0, i - 1) =~= c.drop_last());
        }
    } else {
        lemma_total_prefix(c.drop_last(), i);
        assert(c.drop_last().subrange(0, i) =~= c.subrange(0, i));
    }
}

/// The number of edges in the chart.
pub fn chartsize(chart: &Chart) -> (r: usize)
    requires
        total(chart@) <= usize::MAX,
    ensures
        r == total(chart@),
{
    let ghost c = chart@;
    let mut sum: usize = 0;
    let mut i: usize = 0;
    proof {
        assert(c.subrange(0, 0) =~= Seq::<Seq<EdgeModel>>::empty());
    }
    while i < chart.chart.len()
        invariant
            i <= chart.chart.len(),
            c == chart@,
            c.len() == chart.chart.len(),
            total(c) <= usize::MAX,
            sum == total(c.subrange(0, i as int)),
        decreases chart.chart.len() - i,
    {
        proof {
            assert(c.subrange(0, i + 1).drop_last() =~= c.subrange(0, i as int));
            assert(c[i as int] == edges(chart.chart@[i as int]@));
            lemma_total_prefix(c, i + 1);
        }
        sum = sum + chart.chart[i].len();
        i = i + 1;
    }
    assert(c.subrange(0, i as int) =~= c);
    sum
}

/// The fixed opening of every demonstration sentence.
pub open spec fn prefix_word(i: int) -> &'static str {
    if i == 0 {
        "the"
    } else if i == 1 {
        "lion"
    } else if i == 2 {
        "sees"
    } else if i == 3 {
        "a"
    } else {
        "zebra"
    }
}

/// The cycle of words that lengthens a demonstration sentence.
pub open spec fn suffix_word(j: int) -> &'static str {
    if j == 0 {
        "under"
    } else if j == 1 {
        "a"
    } else if j == 2 {
        "tree"
    } else if j == 3 {
        "with"
    } else if j == 4 {
        "a"
    } else if j == 5 {
        "telescope"
    } else if j == 6 {
        "in"
    } else if j == 7 {
        "the"
    } else {
        "park"
    }
}

/// Word `i` of a demonstration sentence.
pub open spec fn example_word(i: int) -> &'static str {
    if i < 5 {
        prefix_word(i)
    } else {
        suffix_word((i - 5) % 9)
    }
}

fn prefix_at(i: usize) -> (r: &'static str)
    ensures
        r == prefix_word(i as int),
{
    if i == 0 {
        "the"
    } else if i == 1 {
        "lion"
    } else if i == 2 {
        "sees"
    } else if i == 3 {
        "a"
    } else {
        "zebra"
    }
}

fn suffix_at(j: usize) -> (r: &'static str)
    ensures
        r == suffix_word(j as int),
{
    if j == 0 {
        "under"
    } else if j == 1 {
        "a"
    } else if j == 2 {
        "tree"
    } else if j == 3 {
        "with"
    } else if j == 4 {
        "a"
    } else if j == 5 {
        "telescope"
    } else if j == 6 {
        "in"
    } else if j == 7 {
        "the"
    } else {
        "park"
    }
}

/// A demonstration sentence: "the lion sees a zebra" followed by `3 * n`
/// words of the cycle "under a tree with a telescope in the park".
pub fn example(n: usize) -> (r: Vec<&'static str>)
    requires
        n <= (usize::MAX - 5) / 3,
    ensures
        r@.len() == 5 + 3 * n,
        forall|i: int| 0 <= i < r@.len() ==> r@[i] == example_word(i),
{
    let mut r: Vec<&'static str> = Vec::new();
    let mut i: usize = 0;
    while i < 5
        invariant
            i <= 5,
            r@.len() == i,
            forall|m: int| 0 <= m < i ==> r@[m] == example_word(m),
        decreases 5 - i,
    {
        r.push(prefix_at(i));
        i = i + 1;
    }
    let len = 3 * n;
    let mut j: usize = 0;
    while j < len
        invariant
            len == 3 * n,
            n <= (usize::MAX - 5) / 3,
            j <= len,
            r@.len() == 5 + j,
            forall|m: int| 0 <= m < 5 + j ==> r@[m] == example_word(m),
        decreases len - j,
    {
        r.push(suffix_at(j % 9));
        proof {
            assert((5 + j - 5) % 9 == j % 9);
        }
        j = j + 1;
    }
    r
}

/// Whether the dump of a chart with `len` buckets shows bucket `k`: some entry
/// of `positions` names `k`, or names it from the end as `k - len`.
pub fn bucket_selected(k: usize, len: usize, positions: &[i32]) -> (r: bool)
    ensures
        r == exists|i: int|
            0 <= i < positions.len() && (#[trigger] positions@[i] == k as int || positions@[i]
                == k as int - len as int),
{
    let kk = k as i128;
    let back = kk - len as i128;
    let mut i: usize = 0;
    while i < positions.len()
        invariant
            i <= positions.len(),
            kk == k as int,
            back == k as int - len as int,
            forall|j: int|
                0 <= j < i ==> !(#[trigger] positions@[j] == k as int || positions@[j] == k as int
                    - len as int),
        decreases positions.len() - i,
    {
        let p = positions[i] as i128;
        if p == kk || p == back {
            return true;
        }
        i = i + 1;
    }
    false
}

} // verus!
