//! Rules, edges and charts, each with its view in the model.
use vstd::prelude::*;

use crate::model::{EdgeModel, RuleModel};

verus! {

/// The symbols of a sequence of strings.
pub open spec fn syms(v: Seq<String>) -> Seq<Seq<char>> {
    v.map_values(|s: String| s@)
}

/// The spellings of a token sequence.
pub open spec fn words(v: Seq<&str>) -> Seq<Seq<char>> {
    v.map_values(|s: &str| s@)
}

/// A grammar rule `lhs -> rhs`.
#[derive(Debug)]
pub struct Rule {
    pub lhs: String,
    pub rhs: Vec<String>,
}

impl View for Rule {
    type V = RuleModel;

    open spec fn view(&self) -> RuleModel {
        RuleModel { lhs: self.lhs@, rhs: syms(self.rhs@) }
    }
}

/// The rules of a slice of rules.
pub open spec fn rules(g: Seq<Rule>) -> Seq<RuleModel> {
    g.map_values(|r: Rule| r@)
}

/// A set of rules.
pub struct Grammar {
    pub rules: Vec<Rule>,
}

/// A dotted edge: `lhs -> rhs` over `[start, end)`, with `rhs[..dot]` recognized.
#[derive(Debug, Clone)]
pub struct Edge {
    pub start: usize,
    pub end: usize,
    pub lhs: String,
    pub rhs: Vec<String>,
    pub dot: usize,
}

impl View for Edge {
    type V = EdgeModel;

    open spec fn view(&self) -> EdgeModel {
        EdgeModel {
            start: self.start as int,
            end: self.end as int,
            lhs: self.lhs@,
            rhs: syms(self.rhs@),
            dot: self.dot as int,
        }
    }
}

/// The edges of a sequence of edges.
pub open spec fn edges(v: Seq<Edge>) -> Seq<EdgeModel> {
    v.map_values(|e: Edge| e@)
}

/// One bucket of edges per input boundary; bucket `k` holds edges ending at `k`.
#[derive(Debug)]
pub struct Chart {
    pub chart: Vec<Vec<Edge>>,
}

impl View for Chart {
    type V = Seq<Seq<EdgeModel>>;

    open spec fn view(&self) -> Seq<Seq<EdgeModel>> {
        buckets(self.chart@)
    }
}

/// The edges of each bucket.
pub open spec fn buckets(c: Seq<Vec<Edge>>) -> Seq<Seq<EdgeModel>> {
    c.map_values(|b: Vec<Edge>| edges(b@))
}

impl Chart {
    /// A chart with no buckets.
    pub fn new() -> (r: Chart)
        ensures
            r@ == Seq::<Seq<EdgeModel>>::empty(),
    {
        let r = Chart { chart: Vec::new() };
        assert(r@ =~= Seq::<Seq<EdgeModel>>::empty());
        r
    }
}

/// A copy of a symbol sequence.
pub fn copy_syms(v: &Vec<String>) -> (r: Vec<String>)
    ensures
        syms(r@) == syms(v@),
{
    let mut r: Vec<String> = Vec::new();
    let mut i: usize = 0;
    while i < v.len()
        invariant
            i <= v.len(),
            r.len() == i,
            forall|j: int| 0 <= j < i ==> r@[j]@ == v@[j]@,
        decreases v.len() - i,
    {
        r.push(v[i].clone());
        i = i + 1;
    }
    assert(syms(r@) =~= syms(v@));
    r
}

/// The symbols of a token slice, as owned strings.
pub fn owned_syms(v: &[&str]) -> (r: Vec<String>)
    ensures
        syms(r@) == words(v@),
{
    let mut r: Vec<String> = Vec::new();
    let mut i: usize = 0;
    while i < v.len()
        invariant
            i <= v.len(),
            r.len() == i,
            forall|j: int| 0 <= j < i ==> r@[j]@ == v@[j]@,
        decreases v.len() - i,
    {
        r.push(v[i].to_owned());
        i = i + 1;
    }
    assert(syms(r@) =~= words(v@));
    r
}

/// Whether two symbol sequences are equal.
pub fn same_syms(a: &Vec<String>, b: &Vec<String>) -> (r: bool)
    ensures
        r == (syms(a@) == syms(b@)),
{
    if a.len() != b.len() {
        assert(syms(a@).len() != syms(b@).len());
        return false;
    }
    let mut i: usize = 0;
    while i < a.len()
        invariant
            i <= a.len(),
            a.len() == b.len(),
            forall|j: int| 0 <= j < i ==> a@[j]@ == b@[j]@,
        decreases a.len() - i,
    {
        if a[i] != b[i] {
            assert(syms(a@)[i as int] != syms(b@)[i as int]);
            return false;
        }
        i = i + 1;
    }
    assert(syms(a@) =~= syms(b@));
    true
}

impl Edge {
    /// An edge from its parts; no right-hand side gives a scanned token.
    pub fn new(start: usize, end: usize, lhs: &str, rhs: Option<&[&str]>, dot: usize) -> (r: Edge)
        ensures
            r@ == (EdgeModel {
                start: start as int,
                end: end as int,
                lhs: lhs@,
                rhs: match rhs {
                    None => Seq::empty(),
                    Some(v) => words(v@),
                },
                dot: dot as int,
            }),
    {
        let rhs = match rhs {
            None => {
                let v: Vec<String> = Vec::new();
                assert(syms(v@) =~= Seq::empty());
                v
            },
            Some(v) => owned_syms(v),
        };
        Edge { start, end, lhs: lhs.to_owned(), rhs, dot }
    }

    /// The edge is fully recognized.
    pub fn is_passive(&self) -> (r: bool)
        ensures
            r == self@.passive(),
    {
        self.dot == self.rhs.len()
    }

    /// The symbol an active edge expects next.
    pub fn next_symbol(&self) -> (r: &String)
        requires
            self.dot < self.rhs.len(),
        ensures
            r@ == self@.rhs[self@.dot],
    {
        &self.rhs[self.dot]
    }

    /// Structural equality of edges.
    pub fn same_as(&self, other: &Edge) -> (r: bool)
        ensures
            r == (self@ == other@),
    {
        self.start == other.start && self.end == other.end && self.dot == other.dot && self.lhs
            == other.lhs && same_syms(&self.rhs, &other.rhs)
    }

    /// A copy of the edge.
    pub fn copy(&self) -> (r: Edge)
        ensures
            r@ == self@,
    {
        Edge {
            start: self.start,
            end: self.end,
            lhs: self.lhs.clone(),
            rhs: copy_syms(&self.rhs),
            dot: self.dot,
        }
    }
}

/// A copy of a sequence of edges.
pub fn copy_edges(v: &Vec<Edge>) -> (r: Vec<Edge>)
    ensures
        edges(r@) == edges(v@),
{
    let mut r: Vec<Edge> = Vec::new();
    let mut i: usize = 0;
    while i < v.len()
        invariant
            i <= v.len(),
            r.len() == i,
            forall|j: int| 0 <= j < i ==> r@[j]@ == v@[j]@,
        decreases v.len() - i,
    {
        r.push(v[i].copy());
        i = i + 1;
    }
    assert(edges(r@) =~= edges(v@));
    r
}

impl PartialEq for Edge {
    fn eq(&self, other: &Edge) -> (r: bool)
        ensures
            r == (self@ == other@),
    {
        self.same_as(other)
    }
}

impl vstd::std_specs::cmp::PartialEqSpecImpl for Edge {
    open spec fn obeys_eq_spec() -> bool {
        true
    }

    open spec fn eq_spec(&self, other: &Edge) -> bool {
        self@ == other@
    }
}

impl Eq for Edge {}

/// Whether `v` holds an edge equal to `e`.
pub fn contains_edge(v: &Vec<Edge>, e: &Edge) -> (r: bool)
    ensures
        r == edges(v@).contains(e@),
{
    let mut i: usize = 0;
    while i < v.len()
        invariant
            i <= v.len(),
            forall|j: int| 0 <= j < i ==> v@[j]@ != e@,
        decreases v.len() - i,
    {
        if v[i].same_as(e) {
            assert(edges(v@)[i as int] == e@);
            return true;
        }
        i = i + 1;
    }
    assert forall|j: int| 0 <= j < edges(v@).len() implies edges(v@)[j] != e@ by {
        assert(v@[j]@ != e@);
    }
    false
}

} // verus!
