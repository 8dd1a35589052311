use earley::{chartsize, earley1, earley2, leftcorners_dict, success, Chart, Edge, Rule};

fn rule(lhs: &str, rhs: &[&str]) -> Rule {
    Rule { lhs: lhs.to_string(), rhs: rhs.iter().map(|s| s.to_string()).collect() }
}

fn zoo_grammar() -> Vec<Rule> {
    vec![
        rule("S", &["NP", "VP"]),
        rule("VP", &["Verb"]),
        rule("VP", &["Verb", "NP"]),
        rule("VP", &["VP", "PP"]),
        rule("NP", &["Det", "Noun"]),
        rule("NP", &["NP", "PP"]),
        rule("PP", &["Prep", "NP"]),
        rule("Verb", &["sees"]),
        rule("Det", &["the"]),
        rule("Det", &["a"]),
        rule("Prep", &["under"]),
        rule("Prep", &["with"]),
        rule("Prep", &["in"]),
        rule("Noun", &["zebra"]),
        rule("Noun", &["lion"]),
        rule("Noun", &["tree"]),
        rule("Noun", &["park"]),
        rule("Noun", &["telescope"]),
    ]
}

fn tiny_grammar() -> Vec<Rule> {
    vec![rule("S", &["A", "B"]), rule("A", &["a"]), rule("B", &["b"])]
}

type Key = (usize, usize, String, Vec<String>, usize);

fn key(e: &Edge) -> Key {
    (e.start, e.end, e.lhs.clone(), e.rhs.clone(), e.dot)
}

fn sorted_bucket(chart: &Chart, k: usize) -> Vec<Key> {
    let mut v: Vec<Key> = chart.chart[k].iter().map(key).collect();
    v.sort();
    v
}

fn has_edge(chart: &Chart, k: usize, start: usize, lhs: &str) -> bool {
    chart.chart[k].iter().any(|e| e.start == start && e.end == k && e.lhs == lhs && e.is_passive())
}

#[test]
fn sentence_recognized() {
    let g = zoo_grammar();
    let input = ["the", "lion", "sees", "a", "zebra"];
    for chart in [earley1(&g, &input), earley2(&g, &input)] {
        assert_eq!(chart.chart.len(), 6);
        assert!(success(&chart, "S", 0));
        assert!(has_edge(&chart, 5, 0, "S"));
    }
}

#[test]
fn intransitive_sentence() {
    // "sees" alone is a VP (VP -> Verb), so the three words form a sentence.
    let g = zoo_grammar();
    let input = ["the", "lion", "sees"];
    for chart in [earley1(&g, &input), earley2(&g, &input)] {
        assert!(has_edge(&chart, 3, 2, "VP"));
        assert!(has_edge(&chart, 3, 0, "S"));
        assert!(success(&chart, "S", 0));
        assert!(!success(&chart, "NP", 0));
    }
}

#[test]
fn sentence_without_verb() {
    let g = zoo_grammar();
    let input = ["the", "lion"];
    for chart in [earley1(&g, &input), earley2(&g, &input)] {
        assert!(!success(&chart, "S", 0));
        assert!(success(&chart, "NP", 0));
    }
}

#[test]
fn attachment_ambiguity() {
    let g = zoo_grammar();
    let input = ["the", "lion", "sees", "a", "zebra", "under", "a", "tree"];
    for chart in [earley1(&g, &input), earley2(&g, &input)] {
        let np_vp: Vec<&Edge> = chart.chart[8]
            .iter()
            .filter(|e| e.is_passive() && (e.lhs == "NP" || e.lhs == "VP"))
            .collect();
        assert!(np_vp.len() >= 2);
        assert!(has_edge(&chart, 8, 3, "NP"));
        assert!(has_edge(&chart, 8, 2, "VP"));
        assert!(success(&chart, "S", 0));
    }
}

#[test]
fn engines_publish_same_buckets() {
    let g = zoo_grammar();
    let words = earley::example(2);
    let c1 = earley1(&g, &words);
    let c2 = earley2(&g, &words);
    assert_eq!(c1.chart.len(), c2.chart.len());
    for k in 0..c1.chart.len() {
        assert_eq!(sorted_bucket(&c1, k), sorted_bucket(&c2, k));
    }
    assert_eq!(chartsize(&c1), chartsize(&c2));
}

#[test]
fn repeated_runs_agree() {
    let g = zoo_grammar();
    let words = earley::example(1);
    let a = earley2(&g, &words);
    let b = earley2(&g, &words);
    for k in 0..a.chart.len() {
        assert_eq!(sorted_bucket(&a, k), sorted_bucket(&b, k));
    }
    let c = earley1(&g, &words);
    let d = earley1(&g, &words);
    for k in 0..c.chart.len() {
        assert_eq!(sorted_bucket(&c, k), sorted_bucket(&d, k));
    }
}

#[test]
fn empty_input_gives_one_empty_bucket() {
    let g = zoo_grammar();
    let input: [&str; 0] = [];
    for chart in [earley1(&g, &input), earley2(&g, &input)] {
        assert_eq!(chart.chart.len(), 1);
        assert!(chart.chart[0].is_empty());
        assert!(!success(&chart, "S", 0));
        assert!(!success(&chart, "NP", 0));
        assert_eq!(chartsize(&chart), 0);
    }
}

#[test]
fn published_edges_are_well_formed() {
    let g = zoo_grammar();
    let words = earley::example(1);
    let n = words.len();
    for chart in [earley1(&g, &words), earley2(&g, &words)] {
        assert_eq!(chart.chart.len(), n + 1);
        assert!(chart.chart[0].is_empty());
        for (k, bucket) in chart.chart.iter().enumerate() {
            for e in bucket {
                assert!(e.is_passive());
                assert!(e.start < e.end);
                assert_eq!(e.end, k);
                assert!(k <= n);
            }
        }
    }
}

#[test]
fn tiny_chart_exact_contents() {
    let g = tiny_grammar();
    let input = ["a", "b"];
    for chart in [earley1(&g, &input), earley2(&g, &input)] {
        let s = |x: &str| x.to_string();
        assert_eq!(
            sorted_bucket(&chart, 1),
            vec![(0, 1, s("A"), vec![s("a")], 1), (0, 1, s("a"), vec![], 0)]
        );
        assert_eq!(
            sorted_bucket(&chart, 2),
            vec![
                (0, 2, s("S"), vec![s("A"), s("B")], 2),
                (1, 2, s("B"), vec![s("b")], 1),
                (1, 2, s("b"), vec![], 0),
            ]
        );
        assert_eq!(chartsize(&chart), 5);
        assert!(success(&chart, "S", 0));
        assert!(success(&chart, "B", 1));
        assert!(!success(&chart, "S", 1));
        assert!(!success(&chart, "A", 0));
    }
}

#[test]
fn unknown_token_is_not_an_error() {
    let g = tiny_grammar();
    let input = ["a", "c"];
    for chart in [earley1(&g, &input), earley2(&g, &input)] {
        assert!(!success(&chart, "S", 0));
        assert_eq!(chart.chart[2].len(), 1);
        assert_eq!(chart.chart[2][0].lhs, "c");
    }
}

#[test]
fn duplicate_rules_give_one_edge() {
    let mut g = tiny_grammar();
    g.push(rule("A", &["a"]));
    let input = ["a", "b"];
    for chart in [earley1(&g, &input), earley2(&g, &input)] {
        assert_eq!(chartsize(&chart), 5);
    }
}

#[test]
fn left_recursion_terminates() {
    let g = vec![rule("L", &["x"]), rule("L", &["L", "x"])];
    let input = ["x", "x", "x"];
    for chart in [earley1(&g, &input), earley2(&g, &input)] {
        assert!(success(&chart, "L", 0));
        assert!(success(&chart, "L", 1));
        assert!(success(&chart, "L", 2));
        assert_eq!(chart.chart[3].len(), 4);
    }
}

#[test]
fn leftcorner_index_lists_rules_in_order() {
    let g = zoo_grammar();
    let index = leftcorners_dict(&g);
    let find = |s: &str| index.iter().find(|e| e.symbol == s).map(|e| e.rules.clone());
    assert_eq!(find("NP"), Some(vec![0, 5]));
    assert_eq!(find("Verb"), Some(vec![1, 2]));
    assert_eq!(find("VP"), Some(vec![3]));
    assert_eq!(find("Noun"), None);
    assert_eq!(find("the"), Some(vec![8]));
    let total: usize = index.iter().map(|e| e.rules.len()).sum();
    assert_eq!(total, g.len());
    let mut symbols: Vec<&String> = index.iter().map(|e| &e.symbol).collect();
    symbols.sort();
    symbols.dedup();
    assert_eq!(symbols.len(), index.len());
}
