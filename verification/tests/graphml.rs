use preference_splitting::graphml::{
    get_cost_tags, is_node_id, parse_node_id, read_graphml, AttributeType, GraphObject, GraphmlAttribute,
    GraphmlError,
};

const KEYS: &str = r#"<key id="d0" for="node" attr.name="level" attr.type="long"/>
<key id="d1" for="node" attr.name="id" attr.type="string"/>
<key id="d2" for="edge" attr.name="name" attr.type="string"/>
<key id="d3" for="edge" attr.name="edgeA" attr.type="string"/>
<key id="d4" for="edge" attr.name="edgeB" attr.type="string"/>
<key id="d5" for="edge" attr.name="time" attr.type="double"/>
<key id="d6" for="edge" attr.name="dist" attr.type="double"/>
<key id="d7" for="edge" attr.name="x" attr.type="double"/>
"#;

const BODY: &str = r#"<graph edgedefault="directed">
<node id="n0"><data key="d0">2</data><data key="d1">n0</data></node>
<node id="n1"><data key="d0">1</data><data key="d1">n1</data></node>
<edge source="n0" target="n1"><data key="d2">a</data><data key="d3">-1</data><data key="d4">-1</data><data key="d5">1.5</data><data key="d6">2</data></edge>
<edge source="n1" target="n0"><data key="d2">b</data><data key="d3">a</data><data key="d4">a</data></edge>
</graph>"#;

fn document(keys: &str, extra_key: &str, body: &str) -> String {
    format!(
        "<graphml xmlns=\"http://graphml.graphdrawing.org/xmlns\">\n{}{}{}</graphml>",
        keys, extra_key, body
    )
}

const FOURTH_METRIC: &str = "<key id=\"d8\" for=\"edge\" attr.name=\"y\" attr.type=\"double\"/>\n";

#[test]
fn graphml_reads_nodes_edges_and_metrics() {
    let c = read_graphml(&document(KEYS, FOURTH_METRIC, BODY)).ok().unwrap();
    let nodes: Vec<(u32, u32)> = c.nodes.iter().map(|n| (n.id, n.ch_level)).collect();
    assert_eq!(nodes, vec![(0, 2), (1, 1)]);
    assert_eq!(c.edges.len(), 2);
    assert_eq!((c.edges[0].id, c.edges[0].source_id, c.edges[0].target_id), (0, 0, 1));
    assert_eq!(
        c.edges[0].edge_costs,
        vec![Some("1.5".to_string()), Some("2".to_string()), None, None]
    );
    assert_eq!(c.edges[0].replaced_edges, None);
    assert_eq!(c.edges[1].replaced_edges, Some((0, 0)));
    assert_eq!(c.edge_lookup.lookup(&"b".to_string()), Some(1));
    assert_eq!(get_cost_tags(&c.keys), vec!["time", "dist", "x", "y"]);
    let positions: Vec<usize> = c
        .keys
        .iter()
        .filter_map(|(_, a)| match a.attribute_type {
            AttributeType::Double(i) => Some(i),
            _ => None,
        })
        .collect();
    assert_eq!(positions, vec![0, 1, 2, 3]);
}

#[test]
fn graphml_needs_four_metrics() {
    match read_graphml(&document(KEYS, "", BODY)) {
        Err(GraphmlError::WrongMetricCount { found }) => assert_eq!(found, 3),
        _ => panic!("wrong metric count expected"),
    }
}

#[test]
fn graphml_rejects_malformed_xml() {
    assert!(matches!(read_graphml("<graphml><key></graphml>"), Err(GraphmlError::Xml(_))));
}

#[test]
fn graphml_reports_unknown_keys_and_edges() {
    let unknown_key = BODY.replace("<data key=\"d0\">2</data>", "<data key=\"zz\">2</data>");
    assert!(matches!(
        read_graphml(&document(KEYS, FOURTH_METRIC, &unknown_key)),
        Err(GraphmlError::UnknownKey { .. })
    ));
    let unknown_edge = BODY.replace("<data key=\"d3\">a</data>", "<data key=\"d3\">q</data>");
    assert!(matches!(
        read_graphml(&document(KEYS, FOURTH_METRIC, &unknown_edge)),
        Err(GraphmlError::UnknownEdge { .. })
    ));
    let no_name = BODY.replace("<data key=\"d2\">b</data>", "");
    assert!(matches!(
        read_graphml(&document(KEYS, FOURTH_METRIC, &no_name)),
        Err(GraphmlError::EdgeWithoutName { .. })
    ));
    let bad_level = BODY.replace("<data key=\"d0\">1</data>", "<data key=\"d0\">high</data>");
    assert!(matches!(
        read_graphml(&document(KEYS, FOURTH_METRIC, &bad_level)),
        Err(GraphmlError::BadLevel { .. })
    ));
    let no_source = BODY.replace("source=\"n1\"", "");
    assert!(matches!(
        read_graphml(&document(KEYS, FOURTH_METRIC, &no_source)),
        Err(GraphmlError::EdgeWithoutEndpoint { .. })
    ));
}

#[test]
fn graphml_reports_bad_key_declarations() {
    let bad_type = FOURTH_METRIC.replace("double", "float");
    assert!(matches!(
        read_graphml(&document(KEYS, &bad_type, BODY)),
        Err(GraphmlError::UnknownType { .. })
    ));
    let no_id = FOURTH_METRIC.replace("id=\"d8\" ", "");
    assert!(matches!(
        read_graphml(&document(KEYS, &no_id, BODY)),
        Err(GraphmlError::KeyMissingAttribute { .. })
    ));
}

#[test]
fn attributes_know_their_kind_and_type() {
    let a = GraphmlAttribute::new("edge", "time", "double", 3);
    assert!(matches!(a.obj_type, GraphObject::Edge));
    assert_eq!(a.name, "time");
    assert!(matches!(a.attribute_type, AttributeType::Double(3)));
    let b = GraphmlAttribute::new("node", "level", "long", 0);
    assert!(matches!(b.obj_type, GraphObject::Node));
    assert!(matches!(b.attribute_type, AttributeType::Long));
}

#[test]
fn node_ids_carry_a_number_after_their_first_character() {
    assert_eq!(parse_node_id("n42"), 42);
    assert_eq!(parse_node_id("x+7"), 7);
    assert!(is_node_id("n42"));
    assert!(!is_node_id("n"));
    assert!(!is_node_id(""));
    assert!(!is_node_id("nx"));
    assert!(!is_node_id("n4294967296"));
}

#[test]
fn graphml_reports_incomplete_data() {
    let no_key = BODY.replace("<data key=\"d1\">n1</data>", "<data>n1</data>");
    assert!(matches!(
        read_graphml(&document(KEYS, FOURTH_METRIC, &no_key)),
        Err(GraphmlError::DataWithoutKey { .. })
    ));
    let no_text = BODY.replace("<data key=\"d1\">n1</data>", "<data key=\"d1\"/>");
    assert!(matches!(
        read_graphml(&document(KEYS, FOURTH_METRIC, &no_text)),
        Err(GraphmlError::DataWithoutText { .. })
    ));
    let bad_id = BODY.replace("<data key=\"d1\">n1</data>", "<data key=\"d1\">n-1</data>");
    assert!(matches!(
        read_graphml(&document(KEYS, FOURTH_METRIC, &bad_id)),
        Err(GraphmlError::BadNodeId { .. })
    ));
    let metric_without_text = BODY.replace("<data key=\"d5\">1.5</data>", "<data key=\"d5\"/>");
    let c = read_graphml(&document(KEYS, FOURTH_METRIC, &metric_without_text)).ok().unwrap();
    assert_eq!(c.edges[0].edge_costs, vec![None, Some("2".to_string()), None, None]);
}

#[test]
fn graphml_keeps_the_last_declaration_of_a_key() {
    // `d0` is declared again as the id attribute: the data of key `d0` now
    // set the node id, and only the later declaration of `d0` is listed.
    let redeclared = "<key id=\"d0\" for=\"node\" attr.name=\"id\" attr.type=\"string\"/>\n";
    let extra = format!("{}{}", FOURTH_METRIC, redeclared);
    let body = BODY
        .replace("<data key=\"d0\">2</data>", "<data key=\"d0\">n7</data>")
        .replace("<data key=\"d0\">1</data>", "<data key=\"d0\">n8</data>");
    let c = read_graphml(&document(KEYS, &extra, &body)).ok().unwrap();
    let ids: Vec<&str> = c.keys.iter().map(|(k, _)| k.as_str()).collect();
    assert_eq!(ids, vec!["d1", "d2", "d3", "d4", "d5", "d6", "d7", "d8", "d0"]);
    assert_eq!(c.keys[8].1.name, "id");
    assert!(matches!(c.keys[8].1.obj_type, GraphObject::Node));
    let nodes: Vec<(u32, u32)> = c.nodes.iter().map(|n| (n.id, n.ch_level)).collect();
    // In each node, `d0` gives an id that the later `d1` overwrites.
    assert_eq!(nodes, vec![(0, 0), (1, 0)]);
}
