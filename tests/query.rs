use petgraph::graphmap::DiGraphMap;
use skyline::distance::UNREACHABLE;
use skyline::dominance::{partial_cmp, skyline};
use skyline::input::{add_adjacency, add_keywords, InputError};
use skyline::parse::{parse_keywords, parse_line, ParseError};
use skyline::query::{compute_distances, semantic_place_skyline};
use std::cmp::Ordering;
use std::collections::HashMap;

fn graph_of(edges: &[(u32, u32)]) -> DiGraphMap<u32, ()> {
    let mut g = DiGraphMap::new();
    for &(a, b) in edges {
        g.add_edge(a, b, ());
    }
    g
}

fn index_of(entries: &[(u32, &[u32])]) -> HashMap<u32, Vec<u32>> {
    entries.iter().map(|(n, ks)| (*n, ks.to_vec())).collect()
}

fn sorted(mut rows: Vec<(u32, Vec<u64>)>) -> Vec<(u32, Vec<u64>)> {
    rows.sort();
    rows
}

const A: u32 = 1;
const B: u32 = 2;
const C: u32 = 3;
const X: u32 = 10;
const Y: u32 = 20;

#[test]
fn chain_scenario_distances() {
    let g = graph_of(&[(A, B), (B, C)]);
    let index = index_of(&[(C, &[X]), (B, &[Y])]);
    let rows = sorted(compute_distances(&g, &index, &[X, Y]));
    assert_eq!(
        rows,
        vec![(A, vec![2, 1]), (B, vec![1, 0]), (C, vec![0, UNREACHABLE])]
    );
}

#[test]
fn chain_scenario_skyline() {
    let g = graph_of(&[(A, B), (B, C)]);
    let index = index_of(&[(C, &[X]), (B, &[Y])]);
    let rows = sorted(semantic_place_skyline(&g, &index, &[X, Y]));
    assert_eq!(rows, vec![(B, vec![1, 0]), (C, vec![0, UNREACHABLE])]);
}

#[test]
fn distances_follow_edge_direction() {
    // 1 -> 2 only: node 2 cannot reach the keyword on node 1.
    let g = graph_of(&[(1, 2)]);
    let index = index_of(&[(1, &[X])]);
    let rows = sorted(compute_distances(&g, &index, &[X]));
    assert_eq!(rows, vec![(1, vec![0]), (2, vec![UNREACHABLE])]);
}

#[test]
fn shortest_of_several_paths() {
    // 1 -> 2 -> 3 -> 4 and 1 -> 4: the direct edge wins.
    let g = graph_of(&[(1, 2), (2, 3), (3, 4), (1, 4)]);
    let index = index_of(&[(4, &[X])]);
    let rows = sorted(compute_distances(&g, &index, &[X]));
    assert_eq!(rows, vec![(1, vec![1]), (2, vec![2]), (3, vec![1]), (4, vec![0])]);
}

#[test]
fn nearest_of_several_holders() {
    let g = graph_of(&[(1, 2), (2, 3), (3, 4), (4, 5)]);
    let index = index_of(&[(3, &[X]), (5, &[1, X, 30])]);
    let rows = sorted(compute_distances(&g, &index, &[X]));
    assert_eq!(
        rows,
        vec![(1, vec![2]), (2, vec![1]), (3, vec![0]), (4, vec![1]), (5, vec![0])]
    );
}

#[test]
fn self_loop_is_an_ordinary_edge() {
    let g = graph_of(&[(1, 1), (1, 2)]);
    let index = index_of(&[(2, &[X])]);
    let rows = sorted(compute_distances(&g, &index, &[X]));
    assert_eq!(rows, vec![(1, vec![1]), (2, vec![0])]);
}

#[test]
fn single_keyword_gives_argmin() {
    let g = graph_of(&[(1, 2), (3, 2), (4, 1)]);
    let index = index_of(&[(2, &[X])]);
    let rows = sorted(semantic_place_skyline(&g, &index, &[X]));
    assert_eq!(rows, vec![(2, vec![0])]);
}

#[test]
fn single_keyword_ties_all_survive() {
    let g = graph_of(&[(1, 3), (2, 3), (3, 4)]);
    let index = index_of(&[(3, &[X]), (4, &[X])]);
    let rows = sorted(semantic_place_skyline(&g, &index, &[X]));
    assert_eq!(rows, vec![(3, vec![0]), (4, vec![0])]);
}

#[test]
fn unmatched_keyword_is_unreachable_everywhere() {
    let g = graph_of(&[(1, 2), (2, 3)]);
    let index = index_of(&[(1, &[X])]);
    let rows = sorted(compute_distances(&g, &index, &[X, Y]));
    assert_eq!(
        rows,
        vec![
            (1, vec![0, UNREACHABLE]),
            (2, vec![UNREACHABLE, UNREACHABLE]),
            (3, vec![UNREACHABLE, UNREACHABLE])
        ]
    );
}

#[test]
fn unmatched_single_keyword_keeps_every_node() {
    let g = graph_of(&[(1, 2), (2, 3)]);
    let index = index_of(&[(1, &[X])]);
    let rows = sorted(semantic_place_skyline(&g, &index, &[Y]));
    assert_eq!(
        rows,
        vec![(1, vec![UNREACHABLE]), (2, vec![UNREACHABLE]), (3, vec![UNREACHABLE])]
    );
}

#[test]
fn unreachable_node_kept_when_best_elsewhere() {
    // Node 4 alone holds Y and reaches no X; it is best for Y and survives.
    let g = graph_of(&[(1, 2), (3, 2), (1, 3), (4, 4)]);
    let index = index_of(&[(2, &[X]), (4, &[Y])]);
    let all = sorted(compute_distances(&g, &index, &[X, Y]));
    assert_eq!(
        all,
        vec![
            (1, vec![1, UNREACHABLE]),
            (2, vec![0, UNREACHABLE]),
            (3, vec![1, UNREACHABLE]),
            (4, vec![UNREACHABLE, 0])
        ]
    );
    let rows = sorted(semantic_place_skyline(&g, &index, &[X, Y]));
    assert_eq!(rows, vec![(2, vec![0, UNREACHABLE]), (4, vec![UNREACHABLE, 0])]);
}

#[test]
fn repeated_query_gives_same_rows() {
    let g = graph_of(&[(1, 2), (2, 3), (3, 1), (4, 2)]);
    let index = index_of(&[(1, &[X]), (3, &[Y]), (4, &[X, Y])]);
    let first = sorted(semantic_place_skyline(&g, &index, &[X, Y]));
    let second = sorted(semantic_place_skyline(&g, &index, &[X, Y]));
    assert_eq!(first, second);
    assert_eq!(first, vec![(4, vec![0, 0])]);
}

#[test]
fn skyline_rows_are_dominance_free() {
    let g = graph_of(&[(1, 2), (2, 3), (3, 4), (4, 1), (5, 3)]);
    let index = index_of(&[(1, &[X]), (3, &[Y]), (5, &[30])]);
    let all = compute_distances(&g, &index, &[X, Y, 30]);
    let rows = semantic_place_skyline(&g, &index, &[X, Y, 30]);
    for (_, a) in &rows {
        for (_, b) in &rows {
            assert_ne!(partial_cmp(a, b), Some(Ordering::Less));
        }
    }
    for (n, v) in &all {
        if !rows.iter().any(|(m, _)| m == n) {
            assert!(rows.iter().any(|(_, w)| partial_cmp(w, v) == Some(Ordering::Less)));
        }
    }
}

#[test]
fn empty_graph_has_empty_skyline() {
    let g: DiGraphMap<u32, ()> = DiGraphMap::new();
    let index = HashMap::new();
    assert!(semantic_place_skyline(&g, &index, &[X]).is_empty());
}

#[test]
fn partial_cmp_outcomes() {
    assert_eq!(partial_cmp(&[1, 0], &[2, 1]), Some(Ordering::Less));
    assert_eq!(partial_cmp(&[2, 1], &[1, 0]), Some(Ordering::Greater));
    assert_eq!(partial_cmp(&[1, 0], &[0, UNREACHABLE]), None);
    assert_eq!(partial_cmp(&[3, 4], &[3, 4]), Some(Ordering::Equal));
    assert_eq!(partial_cmp(&[], &[]), Some(Ordering::Equal));
    assert_eq!(partial_cmp(&[5, 1, 2], &[5, 1, 3]), Some(Ordering::Less));
    assert_eq!(partial_cmp(&[5, 1, 4], &[5, 2, 3]), None);
    assert_eq!(partial_cmp(&[5, 3, 4], &[5, 2, 4]), Some(Ordering::Greater));
}

#[test]
fn skyline_filter_keeps_equal_vectors() {
    let rows = vec![(1, vec![1, 2]), (2, vec![1, 2]), (3, vec![2, 2]), (4, vec![0, 5])];
    assert_eq!(
        skyline(&rows),
        vec![(1, vec![1, 2]), (2, vec![1, 2]), (4, vec![0, 5])]
    );
}

#[test]
fn parse_keywords_reads_lists() {
    assert_eq!(parse_keywords("1,2,3"), Ok(vec![1, 2, 3]));
    assert_eq!(parse_keywords("42"), Ok(vec![42]));
    assert_eq!(parse_keywords("+7,0"), Ok(vec![7, 0]));
    assert_eq!(parse_keywords("4294967295"), Ok(vec![4294967295]));
}

#[test]
fn parse_keywords_rejects_bad_fields() {
    assert_eq!(parse_keywords(""), Err(ParseError::InvalidNumber));
    assert_eq!(parse_keywords("1,,2"), Err(ParseError::InvalidNumber));
    assert_eq!(parse_keywords("1,2,"), Err(ParseError::InvalidNumber));
    assert_eq!(parse_keywords("1, 2"), Err(ParseError::InvalidNumber));
    assert_eq!(parse_keywords("-1"), Err(ParseError::InvalidNumber));
    assert_eq!(parse_keywords("+"), Err(ParseError::InvalidNumber));
    assert_eq!(parse_keywords("4294967296"), Err(ParseError::InvalidNumber));
    assert_eq!(parse_keywords("12a"), Err(ParseError::InvalidNumber));
}

#[test]
fn parse_line_reads_id_and_list() {
    assert_eq!(parse_line("7:1,2,3"), Ok((7, vec![1, 2, 3])));
    assert_eq!(parse_line("7: 1,2,3 ,\n"), Ok((7, vec![1, 2, 3])));
    assert_eq!(parse_line("0:,,5,"), Ok((0, vec![5])));
    assert_eq!(parse_line("3:4:5"), Err(ParseError::InvalidNumber));
}

#[test]
fn parse_line_rejects_malformed_lines() {
    assert_eq!(parse_line("7 1,2"), Err(ParseError::MissingColon));
    assert_eq!(parse_line(""), Err(ParseError::MissingColon));
    assert_eq!(parse_line(" 7:1"), Err(ParseError::InvalidNumber));
    assert_eq!(parse_line("7:"), Err(ParseError::InvalidNumber));
    assert_eq!(parse_line("7:1, 2"), Err(ParseError::InvalidNumber));
}

#[test]
fn add_adjacency_adds_edges() {
    let mut g = DiGraphMap::new();
    assert_eq!(add_adjacency(&mut g, 1, &vec![2, 3]), Ok(()));
    assert_eq!(add_adjacency(&mut g, 2, &vec![3]), Ok(()));
    assert!(g.contains_edge(1, 2) && g.contains_edge(1, 3) && g.contains_edge(2, 3));
    assert_eq!(g.edge_count(), 3);
    assert_eq!(g.node_count(), 3);
}

#[test]
fn add_adjacency_reports_duplicate_edges() {
    let mut g = DiGraphMap::new();
    assert_eq!(add_adjacency(&mut g, 1, &vec![2]), Ok(()));
    assert_eq!(
        add_adjacency(&mut g, 1, &vec![3, 2, 4]),
        Err(InputError::DuplicateEdge { source: 1, target: 2 })
    );
    assert!(g.contains_edge(1, 3));
    assert!(!g.contains_node(4));
    let mut h = DiGraphMap::new();
    assert_eq!(
        add_adjacency(&mut h, 5, &vec![6, 6]),
        Err(InputError::DuplicateEdge { source: 5, target: 6 })
    );
}

#[test]
fn add_keywords_sorts_and_rejects_duplicate_nodes() {
    let mut index = HashMap::new();
    assert_eq!(add_keywords(&mut index, 1, vec![5, 3, 9]), Ok(()));
    assert_eq!(index[&1], vec![3, 5, 9]);
    assert_eq!(add_keywords(&mut index, 2, vec![1]), Ok(()));
    assert_eq!(add_keywords(&mut index, 1, vec![2]), Err(InputError::DuplicateNode(1)));
}

#[test]
fn add_keywords_rejects_repeated_keywords() {
    let mut index = HashMap::new();
    assert_eq!(add_keywords(&mut index, 4, vec![1]), Ok(()));
    assert_eq!(
        add_keywords(&mut index, 1, vec![3, 3]),
        Err(InputError::DuplicateKeyword { node: 1, keyword: 3 })
    );
    assert_eq!(
        add_keywords(&mut index, 2, vec![9, 5, 7, 5]),
        Err(InputError::DuplicateKeyword { node: 2, keyword: 5 })
    );
    assert!(!index.contains_key(&1) && !index.contains_key(&2));
    assert_eq!(index.len(), 1);
    assert_eq!(add_keywords(&mut index, 3, vec![]), Ok(()));
    assert_eq!(index[&3], Vec::<u32>::new());
}

#[test]
fn built_inputs_answer_queries() {
    let mut g = DiGraphMap::new();
    let mut index = HashMap::new();
    for line in ["1:2", "2:3"] {
        let (s, ts) = parse_line(line).unwrap();
        add_adjacency(&mut g, s, &ts).unwrap();
    }
    for line in ["3:10", "2:20"] {
        let (n, ks) = parse_line(line).unwrap();
        add_keywords(&mut index, n, ks).unwrap();
    }
    let keywords = parse_keywords("10,20").unwrap();
    let rows = sorted(semantic_place_skyline(&g, &index, &keywords));
    assert_eq!(rows, vec![(2, vec![1, 0]), (3, vec![0, UNREACHABLE])]);
}
