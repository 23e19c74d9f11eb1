use renraku::graph::{Graph, GraphParsingError, Line, LineParsingError};
use renraku::ident::{Connection, NodeId};

fn sorted_vertices(g: &Graph) -> Vec<usize> {
    let mut v: std::collections::BTreeSet<usize> = (1..=g.vertex_count).collect();
    v.extend(g.vertices.iter().map(|n| n.0));
    for n in &v {
        assert!(g.has_vertex(NodeId(*n)));
    }
    v.into_iter().collect()
}

fn sorted_edges(g: &Graph) -> Vec<(usize, usize)> {
    let mut e: Vec<(usize, usize)> = g.edges.iter().map(|c| (c.0 .0, c.1 .0)).collect();
    e.sort();
    e
}

#[test]
fn a_comment_keeps_its_text() {
    assert_eq!(Line::from_str("c hello"), Ok(Line::Comment("c hello".to_string())));
    assert_eq!(Line::from_str("c"), Ok(Line::Comment("c".to_string())));
    assert_eq!(Line::from_str("comment e 1 2"), Ok(Line::Comment("comment e 1 2".to_string())));
}

#[test]
fn a_manifest_gives_the_two_counts() {
    assert_eq!(Line::from_str("p edge 3 2"), Ok(Line::Manifest(3, 2)));
    assert_eq!(Line::from_str("p col 10 0"), Ok(Line::Manifest(10, 0)));
    assert_eq!(Line::from_str("p  edge\t3   2 "), Ok(Line::Manifest(3, 2)));
}

#[test]
fn an_edge_gives_its_endpoints_as_written() {
    assert_eq!(Line::from_str("e 1 2"), Ok(Line::Edge(1, 2)));
    assert_eq!(Line::from_str("e 5 3"), Ok(Line::Edge(5, 3)));
    assert_eq!(Line::from_str("e 3 3"), Ok(Line::Edge(3, 3)));
}

#[test]
fn an_empty_line_is_an_error() {
    assert_eq!(Line::from_str(""), Err(LineParsingError::EmptyLine));
}

#[test]
fn an_unknown_marker_is_an_error() {
    assert_eq!(
        Line::from_str("x 1 2"),
        Err(LineParsingError::UnknownMarker("x 1 2".to_string(), 'x'))
    );
    assert_eq!(
        Line::from_str(" e 1 2"),
        Err(LineParsingError::UnknownMarker(" e 1 2".to_string(), ' '))
    );
    assert_eq!(Line::from_str("E 1 2"), Err(LineParsingError::UnknownMarker("E 1 2".to_string(), 'E')));
}

#[test]
fn the_wrong_number_of_arguments_is_an_error() {
    assert_eq!(
        Line::from_str("e 1"),
        Err(LineParsingError::UnexpectedArguments("e 1".to_string(), 2, 1))
    );
    assert_eq!(
        Line::from_str("e 1 2 3"),
        Err(LineParsingError::UnexpectedArguments("e 1 2 3".to_string(), 2, 3))
    );
    assert_eq!(
        Line::from_str("e"),
        Err(LineParsingError::UnexpectedArguments("e".to_string(), 2, 0))
    );
    assert_eq!(
        Line::from_str("p edge 3"),
        Err(LineParsingError::UnexpectedArguments("p edge 3".to_string(), 2, 1))
    );
    assert_eq!(
        Line::from_str("p 3 2"),
        Err(LineParsingError::UnexpectedArguments("p 3 2".to_string(), 2, 1))
    );
}

#[test]
fn an_argument_that_is_no_number_is_an_error() {
    assert_eq!(
        Line::from_str("e a b"),
        Err(LineParsingError::UnexpectedArguments("e a b".to_string(), 2, 0))
    );
    assert_eq!(
        Line::from_str("e 1 x"),
        Err(LineParsingError::UnexpectedArguments("e 1 x".to_string(), 2, 1))
    );
    assert_eq!(
        Line::from_str("e -1 2"),
        Err(LineParsingError::UnexpectedArguments("e -1 2".to_string(), 2, 1))
    );
    assert_eq!(
        Line::from_str("p edge 3 two"),
        Err(LineParsingError::UnexpectedArguments("p edge 3 two".to_string(), 2, 1))
    );
    assert_eq!(
        Line::from_str("e 1 99999999999999999999999"),
        Err(LineParsingError::UnexpectedArguments(
            "e 1 99999999999999999999999".to_string(),
            2,
            1
        ))
    );
}

#[test]
fn two_numbers_among_other_arguments_are_an_error() {
    assert_eq!(
        Line::from_str("e 1 x 2"),
        Err(LineParsingError::UnexpectedArguments("e 1 x 2".to_string(), 2, 2))
    );
    assert_eq!(
        Line::from_str("p edge 3 of 2"),
        Err(LineParsingError::UnexpectedArguments("p edge 3 of 2".to_string(), 2, 2))
    );
    assert_eq!(
        Line::from_str("e 1 2 x"),
        Err(LineParsingError::UnexpectedArguments("e 1 2 x".to_string(), 2, 2))
    );
    assert_eq!(
        Line::from_str("e x 1 2"),
        Err(LineParsingError::UnexpectedArguments("e x 1 2".to_string(), 2, 2))
    );
}

#[test]
fn the_two_arguments_are_read_after_the_fields_passed_over() {
    let chars: Vec<char> = "p edge 3 4".chars().collect();
    assert_eq!(Line::arguments(&chars, 0, chars.len(), 2), Ok((3, 4)));
    assert_eq!(
        Line::arguments(&chars, 0, chars.len(), 1),
        Err(LineParsingError::UnexpectedArguments("p edge 3 4".to_string(), 2, 2))
    );
    assert_eq!(
        Line::arguments(&chars, 0, chars.len(), 3),
        Err(LineParsingError::UnexpectedArguments("p edge 3 4".to_string(), 2, 1))
    );
    assert_eq!(Line::arguments(&chars, 7, chars.len(), 0), Ok((3, 4)));
}

#[test]
fn the_marker_may_run_into_the_first_field() {
    assert_eq!(Line::from_str("e7 1 2"), Ok(Line::Edge(1, 2)));
    assert_eq!(
        Line::from_str("p5 3 4"),
        Err(LineParsingError::UnexpectedArguments("p5 3 4".to_string(), 2, 1))
    );
}

#[test]
fn a_line_is_read_from_the_middle_of_a_buffer() {
    let chars: Vec<char> = "c x\ne 4 9\n".chars().collect();
    assert_eq!(Line::read(&chars, 4, 9), Ok(Line::Edge(4, 9)));
    assert_eq!(Line::read(&chars, 0, 3), Ok(Line::Comment("c x".to_string())));
    assert_eq!(Line::read(&chars, 3, 3), Err(LineParsingError::EmptyLine));
}

#[test]
fn a_line_can_be_parsed_as_a_string_is() {
    assert_eq!("e 1 2".parse::<Line>(), Ok(Line::Edge(1, 2)));
    assert_eq!("".parse::<Line>(), Err(LineParsingError::EmptyLine));
}

#[test]
fn line_errors_are_reported_in_words() {
    assert_eq!(LineParsingError::EmptyLine.message(), "Attempting to parse an empty line");
    assert_eq!(
        LineParsingError::UnknownMarker("x 1 2".to_string(), 'x').message(),
        "Unknown marker 'x' for line \"x 1 2\""
    );
    assert_eq!(
        LineParsingError::UnexpectedArguments("e 1".to_string(), 2, 1).message(),
        "Unexpected arguments length (actual: 2, expected: 1) in \"e 1\""
    );
    assert_eq!(
        LineParsingError::UnexpectedArguments("e".to_string(), 120, 0).message(),
        "Unexpected arguments length (actual: 120, expected: 0) in \"e\""
    );
}

#[test]
fn graph_errors_are_reported_in_words() {
    assert_eq!(
        GraphParsingError::InvalidGraph.message(),
        "The file has been read without throwing an error yet the graph is uninitialized (is it a graph) ?"
    );
    assert_eq!(
        GraphParsingError::Uninitialized.message(),
        "An edge has been read when the graph is not yet initialized (there must be a line that starts with p before edges)"
    );
    assert_eq!(
        GraphParsingError::LineParsing(LineParsingError::EmptyLine).message(),
        "Attempting to parse an empty line"
    );
}

#[test]
fn a_line_error_becomes_a_graph_error() {
    let e: GraphParsingError = LineParsingError::EmptyLine.into();
    assert_eq!(e, GraphParsingError::LineParsing(LineParsingError::EmptyLine));
}

#[test]
fn a_graph_is_read_from_its_text() {
    let g = Graph::from_str("c a triangle\np edge 3 3\ne 1 2\ne 2 3\ne 1 3\n").unwrap();
    assert_eq!(sorted_vertices(&g), vec![1, 2, 3]);
    assert_eq!(sorted_edges(&g), vec![(1, 2), (1, 3), (2, 3)]);
}

#[test]
fn both_orders_of_an_edge_give_the_same_edge() {
    let one = Graph::from_str("p edge 5 1\ne 5 3").unwrap();
    let other = Graph::from_str("p edge 5 1\ne 3 5").unwrap();
    assert_eq!(one.edges, vec![Connection(NodeId(3), NodeId(5))]);
    assert_eq!(other.edges, vec![Connection(NodeId(3), NodeId(5))]);
    assert_eq!(sorted_vertices(&one), sorted_vertices(&other));
}

#[test]
fn an_edge_given_twice_is_there_once() {
    let g = Graph::from_str("p edge 5 3\ne 5 3\ne 3 5\ne 5 3\n").unwrap();
    assert_eq!(g.edges.len(), 1);
    assert_eq!(g.vertices.len(), 2);
    assert_eq!(sorted_edges(&g), vec![(3, 5)]);
    assert_eq!(sorted_vertices(&g), vec![1, 2, 3, 4, 5]);
}

#[test]
fn the_edge_set_is_a_set_of_unordered_pairs() {
    let mut text = String::from("p edge 6 30\n");
    let mut expected = std::collections::BTreeSet::new();
    let mut seed: u64 = 12345;
    for _ in 0..200 {
        seed = seed.wrapping_mul(6364136223846793005).wrapping_add(1442695040888963407);
        let a = ((seed >> 33) % 6 + 1) as usize;
        seed = seed.wrapping_mul(6364136223846793005).wrapping_add(1442695040888963407);
        let b = ((seed >> 33) % 6 + 1) as usize;
        text.push_str(&format!("e {} {}\n", a, b));
        expected.insert((a.min(b), a.max(b)));
    }
    let g = Graph::from_str(&text).unwrap();
    let found: std::collections::BTreeSet<(usize, usize)> =
        g.edges.iter().map(|c| (c.0 .0, c.1 .0)).collect();
    assert_eq!(found, expected);
    assert_eq!(g.edges.len(), expected.len());
    for c in &g.edges {
        assert!(c.0 .0 <= c.1 .0);
        assert!(g.has_vertex(c.0) && g.has_vertex(c.1));
    }
}

#[test]
fn the_vertices_are_those_that_the_manifest_counts() {
    let g = Graph::from_str("p edge 3 1\ne 1 2").unwrap();
    assert_eq!(g.vertex_count, 3);
    assert_eq!(sorted_vertices(&g), vec![1, 2, 3]);
    assert_eq!(sorted_edges(&g), vec![(1, 2)]);
    assert!(g.has_vertex(NodeId(3)));
    assert!(!g.has_vertex(NodeId(4)));
    assert!(!g.has_vertex(NodeId(0)));

    let edgeless = Graph::from_str("p edge 10 0\n").unwrap();
    assert_eq!(edgeless.vertex_count, 10);
    assert_eq!(sorted_vertices(&edgeless), (1..=10).collect::<Vec<usize>>());
    assert!(edgeless.edges.is_empty());

    let none = Graph::from_str("p edge 0 0\n").unwrap();
    assert_eq!(sorted_vertices(&none), Vec::<usize>::new());
}

#[test]
fn an_edge_makes_a_vertex_of_what_it_names() {
    let g = Graph::from_str("p edge 3 2\ne 1 2\ne 7 2\n").unwrap();
    assert_eq!(g.vertex_count, 3);
    assert_eq!(sorted_vertices(&g), vec![1, 2, 3, 7]);
    assert!(g.has_vertex(NodeId(7)));
    assert!(!g.has_vertex(NodeId(5)));
}

#[test]
fn a_manifest_may_count_more_vertices_than_can_be_listed() {
    let text = format!("p edge {} 1\ne 1 2\n", usize::MAX);
    let g = Graph::from_str(&text).unwrap();
    assert_eq!(g.vertex_count, usize::MAX);
    assert!(g.has_vertex(NodeId(usize::MAX)));
    assert!(!g.has_vertex(NodeId(0)));
    assert_eq!(sorted_edges(&g), vec![(1, 2)]);
}

#[test]
fn an_edge_before_the_manifest_is_an_error() {
    assert_eq!(Graph::from_str("e 1 2\np edge 2 1\n").unwrap_err(), GraphParsingError::Uninitialized);
    assert_eq!(Graph::from_str("c only\ne 1 2").unwrap_err(), GraphParsingError::Uninitialized);
}

#[test]
fn a_text_without_manifest_is_no_graph() {
    assert_eq!(Graph::from_str("").unwrap_err(), GraphParsingError::InvalidGraph);
    assert_eq!(Graph::from_str("\n\n").unwrap_err(), GraphParsingError::InvalidGraph);
    assert_eq!(Graph::from_str("c nothing here\n").unwrap_err(), GraphParsingError::InvalidGraph);
}

#[test]
fn a_bad_line_fails_the_graph() {
    assert_eq!(
        Graph::from_str("p edge 2 1\ne 1\n").unwrap_err(),
        GraphParsingError::LineParsing(LineParsingError::UnexpectedArguments(
            "e 1".to_string(),
            2,
            1
        ))
    );
    assert_eq!(
        Graph::from_str("p edge 2 1\nq\ne 1 2").unwrap_err(),
        GraphParsingError::LineParsing(LineParsingError::UnknownMarker("q".to_string(), 'q'))
    );
    assert_eq!(
        Graph::from_str("p edge 2 1\n e 1 2").unwrap_err(),
        GraphParsingError::LineParsing(LineParsingError::UnknownMarker(" e 1 2".to_string(), ' '))
    );
}

#[test]
fn the_first_failure_is_the_one_reported() {
    assert_eq!(Graph::from_str("e 1 2\nx\n").unwrap_err(), GraphParsingError::Uninitialized);
    assert_eq!(
        Graph::from_str("x\ne 1 2\n").unwrap_err(),
        GraphParsingError::LineParsing(LineParsingError::UnknownMarker("x".to_string(), 'x'))
    );
}

#[test]
fn empty_lines_are_passed_over() {
    let g = Graph::from_str("\n\np edge 2 1\n\n\ne 1 2\n\n").unwrap();
    assert_eq!(sorted_edges(&g), vec![(1, 2)]);
}

#[test]
fn a_carriage_return_is_white_space_within_a_line() {
    let g = Graph::from_str("p edge 2 1\r\ne 1 2\r\n").unwrap();
    assert_eq!(sorted_edges(&g), vec![(1, 2)]);
    assert_eq!(
        Graph::from_str("p edge 2 1\n\r\ne 1 2").unwrap_err(),
        GraphParsingError::LineParsing(LineParsingError::UnknownMarker("\r".to_string(), '\r'))
    );
}

#[test]
fn a_second_manifest_starts_afresh() {
    let g = Graph::from_str("p edge 2 1\ne 1 2\np edge 5 1\ne 3 4\n").unwrap();
    assert_eq!(g.vertex_count, 5);
    assert_eq!(sorted_vertices(&g), vec![1, 2, 3, 4, 5]);
    assert_eq!(sorted_edges(&g), vec![(3, 4)]);
    let h = Graph::from_str("p edge 9 1\ne 1 9\np edge 2 0\n").unwrap();
    assert_eq!(sorted_vertices(&h), vec![1, 2]);
    assert!(h.edges.is_empty());
}

#[test]
fn a_graph_can_be_parsed_as_a_string_is() {
    let g: Graph = "p edge 2 1\ne 2 1".parse().unwrap();
    assert_eq!(sorted_edges(&g), vec![(1, 2)]);
    assert_eq!("".parse::<Graph>().unwrap_err(), GraphParsingError::InvalidGraph);
}

#[test]
fn a_graph_is_built_edge_by_edge() {
    let mut g = Graph::new(0);
    assert!(!g.has_vertex(NodeId(1)));
    g.connect(NodeId(2), NodeId(1));
    g.connect(NodeId(1), NodeId(2));
    g.connect(NodeId(2), NodeId(3));
    assert_eq!(sorted_vertices(&g), vec![1, 2, 3]);
    assert_eq!(sorted_edges(&g), vec![(1, 2), (2, 3)]);
    assert!(g.has_edge(Connection(NodeId(1), NodeId(2))));
    assert!(!g.has_edge(Connection(NodeId(2), NodeId(1))));
    assert!(!g.has_edge(Connection(NodeId(1), NodeId(3))));
    g.add_vertex(NodeId(9));
    g.add_vertex(NodeId(9));
    assert_eq!(sorted_vertices(&g), vec![1, 2, 3, 9]);
}

/// What a graph comes to: the count of its manifest, the vertices beyond that
/// count, and the edges.
type Shape = (usize, Vec<usize>, Vec<(usize, usize)>);

fn shape(g: &Graph) -> Shape {
    let mut beyond: Vec<usize> =
        g.vertices.iter().map(|n| n.0).filter(|n| *n < 1 || *n > g.vertex_count).collect();
    beyond.sort();
    for n in &g.vertices {
        assert!(g.has_vertex(*n));
    }
    (g.vertex_count, beyond, sorted_edges(g))
}

/// Reads a graph the plain way: line by line, with the methods of the
/// standard library on strings.
fn read_plainly(text: &str) -> Result<Shape, GraphParsingError> {
    let mut graph: Option<(usize, std::collections::BTreeSet<usize>, std::collections::BTreeSet<(usize, usize)>)> =
        None;
    for line in text.split('\n').filter(|l| !l.is_empty()) {
        let first = line.chars().next().unwrap();
        let skip = match first {
            'c' => continue,
            'p' => 2,
            'e' => 1,
            other => {
                return Err(GraphParsingError::LineParsing(LineParsingError::UnknownMarker(
                    line.to_string(),
                    other,
                )))
            }
        };
        let arguments: Vec<&str> = line.split_whitespace().skip(skip).collect();
        let found: Vec<usize> = arguments.iter().filter_map(|f| f.parse().ok()).collect();
        if arguments.len() != 2 || found.len() != 2 {
            return Err(GraphParsingError::LineParsing(LineParsingError::UnexpectedArguments(
                line.to_string(),
                2,
                found.len(),
            )));
        }
        if first == 'p' {
            graph = Some((found[0], Default::default(), Default::default()));
        } else {
            match graph.as_mut() {
                None => return Err(GraphParsingError::Uninitialized),
                Some((count, beyond, edges)) => {
                    for v in [found[0], found[1]] {
                        if v < 1 || v > *count {
                            beyond.insert(v);
                        }
                    }
                    edges.insert((found[0].min(found[1]), found[0].max(found[1])));
                }
            }
        }
    }
    match graph {
        None => Err(GraphParsingError::InvalidGraph),
        Some((count, beyond, edges)) => {
            Ok((count, beyond.into_iter().collect(), edges.into_iter().collect()))
        }
    }
}

#[test]
fn reading_agrees_with_reading_plainly() {
    let pieces = [
        "p", "e", "c", "x", " ", " ", "  ", "\t", "\n", "\n", "\r", "1", "2", "3", "10", "+4",
        "-5", "edge", "007", "99999999999999999999999", "\u{a0}", "é",
    ];
    let mut seed: u64 = 2024;
    let mut ok = 0;
    let mut failed = 0;
    for round in 0..20_000 {
        let mut text = String::new();
        if round % 3 != 0 {
            text.push_str("p edge 3 3\n");
        }
        seed = seed.wrapping_mul(6364136223846793005).wrapping_add(1442695040888963407);
        let len = (seed >> 33) % 14;
        for _ in 0..len {
            seed = seed.wrapping_mul(6364136223846793005).wrapping_add(1442695040888963407);
            let pick = ((seed >> 33) as usize) % (pieces.len() + 8);
            if pick < pieces.len() {
                text.push_str(pieces[pick]);
            } else if pick < pieces.len() + 6 {
                seed = seed.wrapping_mul(6364136223846793005).wrapping_add(1442695040888963407);
                let a = (seed >> 33) % 5;
                let b = (seed >> 43) % 5;
                text.push_str(&format!("e {} {}\n", a, b));
            } else {
                seed = seed.wrapping_mul(6364136223846793005).wrapping_add(1442695040888963407);
                text.push_str(&format!("\np edge {} 0\n", (seed >> 33) % 4));
            }
        }
        let expected = read_plainly(&text);
        let found = Graph::from_str(&text).map(|g| shape(&g));
        assert_eq!(found, expected, "{:?}", text);
        if expected.is_ok() {
            ok += 1;
        } else {
            failed += 1;
        }
    }
    assert!(ok > 1000);
    assert!(failed > 1000);
}
