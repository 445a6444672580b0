use preference_splitting::graph::files::{parse_graph_file, parse_minimal_graph_file, GraphFileError};
use preference_splitting::graphml::AttributeType;

fn lines(text: &str) -> Vec<String> {
    text.lines().map(|l| l.to_string()).collect()
}

const MINIMAL: &str = "# a graph\n# of two edges\n\n4\ndist time x y\n3\n2\n10 1\n20 2\n# skipped\n30 x\ne1 10 20 1.5 2 3 4 -1 -1\ne2 20 30 1 1 1 1 0 1\n";

#[test]
fn minimal_format_reads_nodes_edges_names_and_metrics() {
    let c = parse_minimal_graph_file(&lines(MINIMAL)).unwrap();
    let nodes: Vec<(u32, u32)> = c.nodes.iter().map(|n| (n.id, n.ch_level)).collect();
    assert_eq!(nodes, vec![(10, 1), (20, 2), (30, 0)]);
    assert_eq!(c.edges.len(), 2);
    assert_eq!((c.edges[0].id, c.edges[0].source_id, c.edges[0].target_id), (0, 10, 20));
    assert_eq!(c.edges[0].edge_costs, vec!["1.5", "2", "3", "4"]);
    assert_eq!(c.edges[0].replaced_edges, None);
    assert_eq!(c.edges[1].replaced_edges, Some((0, 1)));
    assert_eq!(c.edge_lookup.lookup(&"e2".to_string()), Some(1));
    let names: Vec<&str> = c.keys.iter().map(|(k, _)| k.as_str()).collect();
    assert_eq!(names, vec!["dist", "time", "x", "y"]);
    assert!(matches!(c.keys[2].1.attribute_type, AttributeType::Double(2)));
}

#[test]
fn minimal_format_errors() {
    let cases: Vec<(&str, GraphFileError)> = vec![
        ("# only\n# comments\n", GraphFileError::NoHeaderEnd),
        ("\n4\n", GraphFileError::MissingLine { line: 2 }),
        ("\nfour\n", GraphFileError::BadNumber { line: 1 }),
        ("\n5\na b c d\n", GraphFileError::WrongDimension),
        ("\n4\na b c\n", GraphFileError::WrongMetricCount),
        ("\n4\na b c d\n1\n0\n7\n", GraphFileError::TooFewTokens { line: 5 }),
        ("\n4\na b c d\n1\n0\nx 1\n", GraphFileError::BadNumber { line: 5 }),
        ("\n4\na b c d\n0\n1\ne 1 2 0\n", GraphFileError::TooFewTokens { line: 5 }),
        ("\n4\na b c d\n0\n1\ne 1 2 0 0 x 1\n", GraphFileError::BadNumber { line: 5 }),
        ("\n4\na b c d\n0\n0\n1 2\n", GraphFileError::TooManyLines { line: 5 }),
        ("\n4\na b c d\n1\n0\n\n", GraphFileError::TooFewTokens { line: 5 }),
    ];
    for (text, expected) in cases {
        match parse_minimal_graph_file(&lines(text)) {
            Err(e) => assert_eq!(e, expected, "{:?}", text),
            Ok(_) => panic!("error expected for {:?}", text),
        }
    }
}

#[test]
fn malformed_files_are_told_from_bad_numbers() {
    assert!(GraphFileError::WrongDimension.is_malformed());
    assert!(!GraphFileError::BadNumber { line: 3 }.is_malformed());
}

const FULL: &str = "a\nb\nc\nd\n4\n2\n1\n7 x x x x 3\n# skipped\n8 x x x x 1\n7 8 1 2 3 4 -1 -1\n";

#[test]
fn full_format_reads_nodes_and_edges() {
    let c = parse_graph_file(&lines(FULL)).unwrap();
    let nodes: Vec<(u32, u32)> = c.nodes.iter().map(|n| (n.id, n.ch_level)).collect();
    assert_eq!(nodes, vec![(7, 3), (8, 1)]);
    assert_eq!((c.edges[0].source_id, c.edges[0].target_id), (7, 8));
    assert_eq!(c.edges[0].edge_costs, vec!["1", "2", "3", "4"]);
    assert!(c.keys.is_empty());
    assert_eq!(c.edge_lookup.len(), 0);
}

#[test]
fn full_format_errors() {
    assert_eq!(parse_graph_file(&lines("a\nb\nc\nd\n")).err(), Some(GraphFileError::MissingLine { line: 4 }));
    assert_eq!(parse_graph_file(&lines("a\nb\nc\nd\n3\n")).err(), Some(GraphFileError::WrongDimension));
    assert_eq!(
        parse_graph_file(&lines("a\nb\nc\nd\n4\n1\n0\n7 x x x x\n")).err(),
        Some(GraphFileError::TooFewTokens { line: 7 })
    );
    assert_eq!(
        parse_graph_file(&lines("a\nb\nc\nd\n4\n1\n0\n7 x x x x y\n")).err(),
        Some(GraphFileError::BadNumber { line: 7 })
    );
}

#[test]
fn a_repeated_metric_name_keeps_its_last_declaration() {
    let text = "\n4\ndist time dist y\n0\n0\n";
    let c = parse_minimal_graph_file(&lines(text)).unwrap();
    let names: Vec<&str> = c.keys.iter().map(|(k, _)| k.as_str()).collect();
    assert_eq!(names, vec!["time", "dist", "y"]);
    assert!(matches!(c.keys[1].1.attribute_type, AttributeType::Double(2)));
}
