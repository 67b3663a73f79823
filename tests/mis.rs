use mis_rand::graph::Graph;
use mis_rand::parse::{parse_edge, parse_edgelist, ParseError};
use mis_rand::search::{search, select_best, Best, Policy};
use mis_rand::trial::{run, sweep_order};

fn graph_of(edges: &[(&str, &str)]) -> Graph {
    let list: Vec<(String, String)> =
        edges.iter().map(|(a, b)| (a.to_string(), b.to_string())).collect();
    Graph::from_edges(&list)
}

fn names(g: &Graph, s: &Vec<usize>) -> Vec<String> {
    let mut r = g.names_of(s);
    r.sort();
    r
}

fn is_independent(g: &Graph, s: &Vec<usize>) -> bool {
    for (i, &u) in s.iter().enumerate() {
        for (j, &v) in s.iter().enumerate() {
            if i != j && (u == v || g.neighbors(u).contains(&v)) {
                return false;
            }
        }
    }
    true
}

fn is_maximal(g: &Graph, s: &Vec<usize>) -> bool {
    (0..g.len()).all(|v| s.contains(&v) || g.neighbors(v).iter().any(|u| s.contains(u)))
}

fn lines(text: &[&str]) -> Vec<String> {
    text.iter().map(|l| l.to_string()).collect()
}

#[test]
fn path_trials_are_ac_or_b() {
    let g = graph_of(&[("A", "B"), ("B", "C")]);
    for _ in 0..1000 {
        let s = run(&g);
        let n = names(&g, &s);
        assert!(n == vec!["A".to_string(), "C".to_string()] || n == vec!["B".to_string()]);
        assert!(s.len() == 1 || s.len() == 2);
    }
}

#[test]
fn path_search_maximize_reports_two() {
    let g = graph_of(&[("A", "B"), ("B", "C")]);
    let b = search(&g, Policy::Maximize, 1000);
    assert_eq!(b.size, 2);
    assert_eq!(names(&g, &b.members), vec!["A".to_string(), "C".to_string()]);
}

#[test]
fn path_search_minimize_reports_one() {
    let g = graph_of(&[("A", "B"), ("B", "C")]);
    let b = search(&g, Policy::Minimize, 1000);
    assert_eq!(b.size, 1);
    assert_eq!(names(&g, &b.members), vec!["B".to_string()]);
}

#[test]
fn isolated_vertex_is_selected() {
    let mut g = Graph::new();
    let v = g.add_vertex(&"A".to_string());
    assert_eq!(v, 0);
    assert_eq!(run(&g), vec![0]);
    let b = search(&g, Policy::Maximize, 10);
    assert_eq!(b.size, 1);
    assert_eq!(b.members, vec![0]);
}

#[test]
fn graph_without_vertices_gives_empty_selection() {
    let g = parse_edgelist(&Vec::new()).unwrap();
    assert_eq!(g.len(), 0);
    assert!(run(&g).is_empty());
    let b = search(&g, Policy::Maximize, 5);
    assert_eq!(b.size, 0);
    assert!(b.members.is_empty());
}

#[test]
fn triangle_trials_have_one_vertex() {
    let g = graph_of(&[("A", "B"), ("B", "C"), ("A", "C")]);
    let mut seen = [false; 3];
    for _ in 0..1000 {
        let s = run(&g);
        assert_eq!(s.len(), 1);
        seen[s[0]] = true;
    }
    assert!(seen.iter().all(|&x| x));
}

#[test]
fn trials_are_independent_and_maximal() {
    let edges = [
        ("1", "2"), ("2", "3"), ("3", "4"), ("4", "5"), ("5", "1"), ("1", "6"),
        ("6", "7"), ("7", "8"), ("8", "6"), ("3", "9"), ("9", "10"), ("10", "10"),
    ];
    let g = graph_of(&edges);
    for _ in 0..500 {
        let s = run(&g);
        assert!(is_independent(&g, &s));
        assert!(is_maximal(&g, &s));
    }
}

#[test]
fn sweep_follows_the_order() {
    let g = graph_of(&[("A", "B"), ("B", "C")]);
    // A = 0, B = 1, C = 2
    assert_eq!(sweep_order(&g, &vec![1, 0, 2]), vec![1]);
    assert_eq!(sweep_order(&g, &vec![0, 1, 2]), vec![0, 2]);
    assert_eq!(sweep_order(&g, &vec![2, 1, 0]), vec![2, 0]);
    assert_eq!(sweep_order(&g, &vec![]), Vec::<usize>::new());
}

#[test]
fn edges_are_inserted_both_ways() {
    let g = graph_of(&[("a", "b"), ("c", "a"), ("a", "b")]);
    assert_eq!(g.len(), 3);
    assert_eq!(g.names_of(&vec![0, 1, 2]), vec!["a".to_string(), "b".to_string(), "c".to_string()]);
    assert_eq!(g.neighbors(0), &vec![1, 2, 1]);
    assert_eq!(g.neighbors(1), &vec![0, 0]);
    assert_eq!(g.neighbors(2), &vec![0]);
    assert_eq!(g.vertex_index(&"c".to_string()), Some(2));
    assert_eq!(g.vertex_index(&"d".to_string()), None);
}

#[test]
fn self_loop_lists_vertex_twice() {
    let g = graph_of(&[("a", "a")]);
    assert_eq!(g.len(), 1);
    assert_eq!(g.neighbors(0), &vec![0, 0]);
    assert_eq!(run(&g), vec![0]);
}

#[test]
fn add_edge_returns_indices() {
    let mut g = Graph::new();
    assert_eq!(g.add_edge(&"x".to_string(), &"y".to_string()), (0, 1));
    assert_eq!(g.add_edge(&"z".to_string(), &"x".to_string()), (2, 0));
    assert_eq!(g.neighbors(0), &vec![1, 2]);
}

#[test]
fn parse_edge_takes_first_two_tokens() {
    assert_eq!(parse_edge("  a\tb  c "), Some(("a".to_string(), "b".to_string())));
    assert_eq!(parse_edge("u v"), Some(("u".to_string(), "v".to_string())));
    assert_eq!(parse_edge("solo"), None);
    assert_eq!(parse_edge(""), None);
    assert_eq!(parse_edge("   "), None);
}

#[test]
fn parse_edgelist_builds_graph() {
    let g = parse_edgelist(&lines(&["A B", "B C extra", "C\tA"])).unwrap();
    assert_eq!(g.len(), 3);
    assert_eq!(g.names_of(&vec![0, 1, 2]), vec!["A".to_string(), "B".to_string(), "C".to_string()]);
    assert_eq!(g.neighbors(0), &vec![1, 2]);
    assert_eq!(g.neighbors(1), &vec![0, 2]);
    assert_eq!(g.neighbors(2), &vec![1, 0]);
}

#[test]
fn parse_edgelist_reports_first_malformed_line() {
    let r = parse_edgelist(&lines(&["A B", "C", "", "D E"]));
    assert_eq!(r.err(), Some(ParseError::MalformedLine { line: 1 }));
    let r = parse_edgelist(&lines(&["A B", "C D", ""]));
    assert_eq!(r.err(), Some(ParseError::MalformedLine { line: 2 }));
}

fn sized(sizes: &[usize]) -> Vec<Vec<usize>> {
    sizes
        .iter()
        .enumerate()
        .map(|(k, &n)| (0..n).map(|i| 100 * k + i).collect())
        .collect()
}

#[test]
fn maximize_keeps_first_of_largest_size() {
    let results = sized(&[3, 5, 5, 2]);
    let b = select_best(Policy::Maximize, 10, results.clone());
    assert_eq!(b.size, 5);
    assert_eq!(b.members, results[1]);
}

#[test]
fn minimize_keeps_first_of_smallest_size() {
    let results = sized(&[3, 2, 5, 2]);
    let b = select_best(Policy::Minimize, 10, results.clone());
    assert_eq!(b.size, 2);
    assert_eq!(b.members, results[1]);
}

#[test]
fn select_best_with_no_results_keeps_sentinel() {
    let b = select_best(Policy::Minimize, 7, Vec::new());
    assert_eq!(b.size, 7);
    assert!(b.members.is_empty());
    let b = select_best(Policy::Maximize, 7, Vec::new());
    assert_eq!(b.size, 0);
}

#[test]
fn offer_replaces_only_when_strictly_better() {
    let mut b = Best::initial(Policy::Maximize, 4);
    assert_eq!(b.size, 0);
    assert!(b.offer(Policy::Maximize, vec![1, 2]));
    assert!(!b.offer(Policy::Maximize, vec![3, 4]));
    assert_eq!(b.members, vec![1, 2]);
    assert!(!b.offer(Policy::Maximize, vec![3]));
    assert!(b.offer(Policy::Maximize, vec![0, 1, 2]));
    assert_eq!(b.size, 3);

    let mut m = Best::initial(Policy::Minimize, 4);
    assert_eq!(m.size, 4);
    assert!(!m.filled);
    // The first result replaces the sentinel even at the same size.
    assert!(m.offer(Policy::Minimize, vec![0, 1, 2, 3]));
    assert!(m.filled);
    assert_eq!(m.members, vec![0, 1, 2, 3]);
    assert!(m.offer(Policy::Minimize, vec![0, 1]));
    assert!(!m.offer(Policy::Minimize, vec![2, 3]));
    assert_eq!(m.members, vec![0, 1]);
}

#[test]
fn search_maximum_matches_trials() {
    let g = graph_of(&[("1", "2"), ("1", "3"), ("1", "4"), ("1", "5")]);
    // The star gives either the centre alone or all four leaves.
    let b = search(&g, Policy::Maximize, 200);
    assert_eq!(b.size, 4);
    assert_eq!(b.members.len(), 4);
    let m = search(&g, Policy::Minimize, 200);
    assert_eq!(m.size, 1);
    assert_eq!(names(&g, &m.members), vec!["1".to_string()]);
}

#[test]
fn first_empty_result_replaces_maximize_sentinel() {
    let mut b = Best::initial(Policy::Maximize, 0);
    assert!(b.offer(Policy::Maximize, vec![]));
    assert!(b.filled);
    assert_eq!(b.size, 0);
    assert!(!b.offer(Policy::Maximize, vec![]));
}

#[test]
fn minimize_isolated_vertex_keeps_trial() {
    let mut g = Graph::new();
    g.add_vertex(&"A".to_string());
    let b = search(&g, Policy::Minimize, 10);
    assert_eq!(b.size, 1);
    assert_eq!(b.members, vec![0]);
}

#[test]
fn minimize_self_loop_keeps_trial() {
    let g = parse_edgelist(&lines(&["a a"])).unwrap();
    let b = search(&g, Policy::Minimize, 10);
    assert_eq!(b.size, 1);
    assert_eq!(b.members, vec![0]);
}

#[test]
fn minimize_results_of_vertex_count_keep_first() {
    let results = sized(&[2, 2]);
    let b = select_best(Policy::Minimize, 2, results.clone());
    assert_eq!(b.size, 2);
    assert_eq!(b.members, results[0]);
}

#[test]
fn parse_edge_splits_on_unicode_white_space() {
    assert_eq!(parse_edge("a\u{3000}b"), Some(("a".to_string(), "b".to_string())));
    assert_eq!(parse_edge("\u{a0}x\u{2028}\u{85}y\u{205f}"), Some(("x".to_string(), "y".to_string())));
    assert_eq!(parse_edge("a\u{200b}b"), None);
}
