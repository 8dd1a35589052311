use earley::{bucket_selected, chartsize, example, success, Chart, Edge};

#[test]
fn edge_new_and_passive() {
    let rhs = ["Det", "Noun"];
    let e = Edge::new(0, 2, "NP", Some(&rhs), 2);
    assert_eq!(e.start, 0);
    assert_eq!(e.end, 2);
    assert_eq!(e.lhs, "NP");
    assert_eq!(e.rhs, vec!["Det".to_string(), "Noun".to_string()]);
    assert!(e.is_passive());
    let a = Edge::new(0, 1, "NP", Some(&rhs), 1);
    assert!(!a.is_passive());
    let t = Edge::new(3, 4, "zebra", None, 0);
    assert!(t.rhs.is_empty());
    assert!(t.is_passive());
}

#[test]
fn chart_new_is_empty() {
    let c = Chart::new();
    assert!(c.chart.is_empty());
}

#[test]
fn chartsize_sums_buckets() {
    let mut c = Chart::new();
    c.chart.push(vec![]);
    c.chart.push(vec![Edge::new(0, 1, "a", None, 0)]);
    c.chart.push(vec![Edge::new(1, 2, "b", None, 0), Edge::new(0, 2, "S", Some(&["a", "b"]), 2)]);
    assert_eq!(chartsize(&c), 3);
    assert!(success(&c, "S", 0));
    assert!(!success(&c, "S", 1));
    assert!(success(&c, "b", 1));
}

#[test]
fn success_ignores_active_edges() {
    let mut c = Chart::new();
    c.chart.push(vec![Edge::new(0, 1, "S", Some(&["a", "b"]), 1)]);
    assert!(!success(&c, "S", 0));
}

#[test]
fn example_words() {
    assert_eq!(example(0), vec!["the", "lion", "sees", "a", "zebra"]);
    assert_eq!(
        example(1),
        vec!["the", "lion", "sees", "a", "zebra", "under", "a", "tree"]
    );
    let long = example(4);
    assert_eq!(long.len(), 17);
    assert_eq!(&long[14..], &["under", "a", "tree"]);
    assert_eq!(long[13], "park");
}

#[test]
fn bucket_selection_counts_from_both_ends() {
    assert!(bucket_selected(1, 15, &[1, 2, -2, -1]));
    assert!(bucket_selected(14, 15, &[1, 2, -2, -1]));
    assert!(bucket_selected(13, 15, &[1, 2, -2, -1]));
    assert!(!bucket_selected(3, 15, &[1, 2, -2, -1]));
    assert!(!bucket_selected(0, 15, &[]));
}

#[test]
fn next_symbol_of_active_edge() {
    let a = Edge::new(0, 1, "NP", Some(&["Det", "Noun"]), 1);
    assert_eq!(a.next_symbol(), "Noun");
    let b = Edge::new(0, 0, "NP", Some(&["Det", "Noun"]), 0);
    assert_eq!(b.next_symbol(), "Det");
}

#[test]
fn edges_compare_structurally() {
    let a = Edge::new(0, 2, "NP", Some(&["Det", "Noun"]), 2);
    let b = Edge::new(0, 2, "NP", Some(&["Det", "Noun"]), 2);
    let c = Edge::new(0, 2, "NP", Some(&["Det", "Noun"]), 1);
    let d = Edge::new(0, 2, "NP", Some(&["NP", "PP"]), 2);
    assert!(a == b);
    assert!(a != c);
    assert!(a != d);
    assert!(a.clone() == a);
}
