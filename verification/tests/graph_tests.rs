use draw_force_graph::layout::{
    get_node_mass, isqrt64, placed_position, read_dot, update_graph, LayoutConfig, NodeRole,
};
use draw_force_graph::model::{Decimal, GraphError, Rgb};
use draw_force_graph::parse::{
    is_edge, is_node, parse_color, parse_decimal, parse_edge_line, parse_lines, parse_node_line,
};
use draw_force_graph::rng::SeededRng;
use draw_force_graph::scan::parse_int;

fn node_line(name: &str, card: i64, radius: &str, lfd: &str, color: &str) -> Vec<u8> {
    format!(
        "{} [label=\"{}\\ncardinality {}\\nradius {}\\nlfd {}\", color=\"{}\"]",
        name, name, card, radius, lfd, color
    )
    .into_bytes()
}

fn test_config() -> LayoutConfig {
    LayoutConfig {
        draw_scale: 1000,
        force_divisor: 5,
        half_extent: 500_000,
        row_spacing: 15,
        rest_length: 100_000,
        repulsion: 1_000_000,
        min_distance: 1_000,
    }
}

#[test]
fn classify_lines() {
    assert!(!is_node(b"digraph {"));
    assert!(!is_edge(b"digraph {"));
    assert!(!is_node(b"}"));
    assert!(is_edge(b"a -- b"));
    assert!(is_edge(b"a -> b"));
    assert!(!is_node(b"a -- b"));
    assert!(!is_node(b"edge [style=dotted]"));
    assert!(!is_edge(b"edge [style=dotted]"));
    assert!(is_node(b"a1 [label=\"x\"]"));
    // the connector token decides, spaced or not
    assert!(is_edge(b"x->y"));
    assert!(!is_node(b"x->y"));
    assert!(is_edge(b"x--y"));
    // a lone space-dash is no connector token: still a node line
    assert!(!is_edge(b"a -b [label=\"x\"]"));
    assert!(is_node(b"a -b [label=\"x\"]"));
}

#[test]
fn parse_int_values() {
    assert_eq!(parse_int(b"5"), Some(5));
    assert_eq!(parse_int(b"-12"), Some(-12));
    assert_eq!(parse_int(b"007"), Some(7));
    assert_eq!(parse_int(b""), None);
    assert_eq!(parse_int(b"-"), None);
    assert_eq!(parse_int(b"12a"), None);
    assert_eq!(parse_int(b"99999999999999999999999"), None);
}

#[test]
fn parse_decimal_values() {
    assert_eq!(parse_decimal(b"1.25"), Some(Decimal { mantissa: 125, frac_digits: 2 }));
    assert_eq!(parse_decimal(b"3"), Some(Decimal { mantissa: 3, frac_digits: 0 }));
    assert_eq!(parse_decimal(b"-0.5"), Some(Decimal { mantissa: -5, frac_digits: 1 }));
    assert_eq!(parse_decimal(b"2."), Some(Decimal { mantissa: 2, frac_digits: 0 }));
    assert_eq!(parse_decimal(b".5"), Some(Decimal { mantissa: 5, frac_digits: 1 }));
    assert_eq!(parse_decimal(b"1.2.3"), None);
    assert_eq!(parse_decimal(b"abc"), None);
    assert_eq!(parse_decimal(b""), None);
}

#[test]
fn parse_color_channels() {
    // first two hex digits are red, last two are blue, green stays zero
    assert_eq!(parse_color(b"#ff00aa"), Some(Rgb { r: 255, g: 0, b: 170 }));
    assert_eq!(parse_color(b"#102030\"]"), Some(Rgb { r: 16, g: 0, b: 48 }));
    assert_eq!(parse_color(b"#ff00"), None);
    assert_eq!(parse_color(b"ff00aa0"), None);
    assert_eq!(parse_color(b"#gg00aa"), None);
}

#[test]
fn parse_node_line_fields() {
    let line = node_line("a1", 5, "1.25", "2.5", "#ff00aa");
    let nd = parse_node_line(&line).expect("node line should parse");
    assert_eq!(nd.name, b"a1".to_vec());
    assert_eq!(nd.cardinality, 5);
    assert_eq!(nd.radius, Decimal { mantissa: 125, frac_digits: 2 });
    assert_eq!(nd.lfd, Decimal { mantissa: 25, frac_digits: 1 });
    assert_eq!(nd.color, Rgb { r: 255, g: 0, b: 170 });
    assert_eq!(nd.degree, 0);
}

#[test]
fn parse_edge_line_endpoints() {
    let (a, b) = parse_edge_line(b"a -- b").expect("undirected edge");
    assert_eq!(a, b"a".to_vec());
    assert_eq!(b, b"b".to_vec());

    let (a, b) = parse_edge_line(b" a2 -- b7 [color=\"#112233\"]").expect("attributes dropped");
    assert_eq!(a, b"a2".to_vec());
    assert_eq!(b, b"b7".to_vec());

    let (a, b) = parse_edge_line(b"x -> y").expect("directed edge");
    assert_eq!(a, b"x".to_vec());
    assert_eq!(b, b"y".to_vec());

    assert_eq!(parse_edge_line(b" -- b"), None);
    assert_eq!(parse_edge_line(b"a - b"), None);
}

#[test]
fn malformed_node_line_is_fatal() {
    // the lfd field is missing: only three label parts instead of four
    let lines = vec![b"graph {".to_vec(),
        b"a1 [label=\"a1\\ncardinality 5\\nradius 1.2\", color=\"#ff00aa\"]".to_vec(),
        b"}".to_vec()];
    let cfg = test_config();
    match read_dot(&lines, &cfg, 1) {
        Err(GraphError::MalformedNodeLine { line_no, .. }) => assert_eq!(line_no, 1),
        other => panic!("expected MalformedNodeLine, got {:?}", other.is_ok()),
    }
}

#[test]
fn bad_color_is_its_own_error() {
    let lines = vec![node_line("a1", 5, "1.2", "2.5", "#zz00aa")];
    let cfg = test_config();
    assert!(matches!(
        read_dot(&lines, &cfg, 1),
        Err(GraphError::InvalidColorFormat { line_no: 0, .. })
    ));
}

#[test]
fn unknown_node_reference_is_fatal() {
    let lines = vec![node_line("a", 1, "1.0", "1.0", "#000000"), b"a -- ghost".to_vec()];
    let cfg = test_config();
    match read_dot(&lines, &cfg, 1) {
        Err(GraphError::UnknownNodeReference { line_no, name }) => {
            assert_eq!(line_no, 1);
            assert_eq!(name, b"ghost".to_vec());
        },
        _ => panic!("expected UnknownNodeReference"),
    }
}

#[test]
fn malformed_edge_line_is_fatal() {
    // the connector token makes it an edge line, but without the spaced
    // connector the endpoints cannot be extracted
    let lines = vec![node_line("a", 1, "1.0", "1.0", "#000000"), b"a--b".to_vec()];
    let cfg = test_config();
    assert!(matches!(
        read_dot(&lines, &cfg, 1),
        Err(GraphError::MalformedEdgeLine { line_no: 1, .. })
    ));
}

#[test]
fn node_name_with_space_dash_is_a_node() {
    // contains " -" but no connector token, so it parses as a node
    let lines = vec![node_line("x -1", 2, "1.0", "1.0", "#000000")];
    let g = parse_lines(&lines).expect("parses as a node line");
    assert_eq!(g.nodes.len(), 1);
    assert_eq!(g.nodes[0].name, b"x-1".to_vec());
}

#[test]
fn degrees_count_incident_edges() {
    let lines = vec![
        b"graph {".to_vec(),
        node_line("A", 1, "1.0", "1.0", "#000000"),
        node_line("B", 1, "1.0", "1.0", "#000000"),
        node_line("C", 1, "1.0", "1.0", "#000000"),
        b"A -- B".to_vec(),
        b"B -- C".to_vec(),
        b"}".to_vec(),
    ];
    let g = parse_lines(&lines).expect("parses");
    assert_eq!(g.nodes.len(), 3);
    assert_eq!(g.edges.len(), 2);
    let deg: Vec<u32> = g.nodes.iter().map(|n| n.degree).collect();
    assert_eq!(deg, vec![1, 2, 1]);
}

#[test]
fn duplicate_edge_is_ignored() {
    let lines = vec![
        node_line("A", 1, "1.0", "1.0", "#000000"),
        node_line("B", 1, "1.0", "1.0", "#000000"),
        b"A -- B".to_vec(),
        b"A -- B".to_vec(),
    ];
    let g = parse_lines(&lines).expect("parses");
    assert_eq!(g.edges.len(), 1);
    let deg: Vec<u32> = g.nodes.iter().map(|n| n.degree).collect();
    assert_eq!(deg, vec![1, 1]);
}

#[test]
fn single_node_graph() {
    // one node, no edges: disconnected, degree zero, at the row origin,
    // and relaxation has nothing to do
    let lines = vec![node_line("only", 2, "0.5", "1.5", "#010203")];
    let cfg = test_config();
    let g = read_dot(&lines, &cfg, 7).expect("loads");
    assert_eq!(g.total_nodes, 1);
    assert_eq!(g.total_disconnected_nodes, 1);
    assert_eq!(g.nodes[0].degree, 0);
    assert!(matches!(g.sim[0].role, NodeRole::Disconnected));
    assert_eq!((g.sim[0].x, g.sim[0].y), (0, 0));
    let r = update_graph(g);
    assert_eq!((r.sim[0].x, r.sim[0].y), (0, 0));
    let d = r.graph_dimensions;
    assert_eq!((d.top, d.bottom, d.left, d.right), (0, 0, 0, 0));
}

#[test]
fn tree_root_is_anchored_at_origin() {
    let lines = vec![
        node_line("root", 1, "1.0", "1.0", "#000000"),
        node_line("leaf", 1, "1.0", "1.0", "#000000"),
        b"root -- leaf".to_vec(),
    ];
    let cfg = test_config();
    let g = read_dot(&lines, &cfg, 99).expect("loads");
    assert!(matches!(g.sim[0].role, NodeRole::Anchored));
    assert_eq!((g.sim[0].x, g.sim[0].y), (0, 0));
    let r = update_graph(g);
    assert!(matches!(r.sim[0].role, NodeRole::Anchored));
    assert_eq!((r.sim[0].x, r.sim[0].y), (0, 0));
}

fn three_chain(cfg: &LayoutConfig, seed: u64) -> draw_force_graph::layout::DrawableGraph {
    let lines = vec![
        b"graph {".to_vec(),
        node_line("A", 1, "1.0", "1.0", "#000000"),
        node_line("B", 1, "1.0", "1.0", "#000000"),
        node_line("C", 1, "1.0", "1.0", "#000000"),
        b"A -- B".to_vec(),
        b"B -- C".to_vec(),
        b"}".to_vec(),
    ];
    read_dot(&lines, cfg, seed).expect("loads")
}

#[test]
fn three_node_chain_layout() {
    let cfg = test_config();
    let g = three_chain(&cfg, 42);
    assert_eq!(g.total_nodes, 3);
    assert_eq!(g.total_disconnected_nodes, 0);

    // no node is named root, so the first connected node in parse order is
    // the one anchored node
    assert!(matches!(g.sim[0].role, NodeRole::Anchored));
    assert_eq!((g.sim[0].x, g.sim[0].y), (0, 0));
    let anchored = g.sim.iter().filter(|n| matches!(n.role, NodeRole::Anchored)).count();
    assert_eq!(anchored, 1);

    let r = update_graph(g);
    // the anchor has not moved
    assert_eq!((r.sim[0].x, r.sim[0].y), (0, 0));

    // after (3*3)*5 = 45 passes both springs have settled near the rest
    // length
    let dist = |a: usize, b: usize| {
        let dx = (r.sim[a].x - r.sim[b].x) as f64;
        let dy = (r.sim[a].y - r.sim[b].y) as f64;
        (dx * dx + dy * dy).sqrt()
    };
    let rest = cfg.rest_length as f64;
    assert!(
        (dist(0, 1) - rest).abs() < 5_000.0,
        "A-B distance {} not near rest {}",
        dist(0, 1),
        rest
    );
    assert!(
        (dist(1, 2) - rest).abs() < 5_000.0,
        "B-C distance {} not near rest {}",
        dist(1, 2),
        rest
    );

    // the bounding box contains the origin
    let d = r.graph_dimensions;
    assert!(d.top >= 0 && d.bottom <= 0 && d.right >= 0 && d.left <= 0);
}

#[test]
fn same_seed_same_layout() {
    let cfg = test_config();
    let a = update_graph(three_chain(&cfg, 1234));
    let b = update_graph(three_chain(&cfg, 1234));
    for i in 0..3 {
        assert_eq!((a.sim[i].x, a.sim[i].y), (b.sim[i].x, b.sim[i].y));
    }
    // a different seed gives different free positions
    let c = three_chain(&cfg, 4321);
    let d = three_chain(&cfg, 1234);
    assert!((1..3).any(|i| (c.sim[i].x, c.sim[i].y) != (d.sim[i].x, d.sim[i].y)));
}

#[test]
fn brace_line_with_connector_is_structural() {
    // a brace wins over a connector token: the line frames the graph
    let lines = vec![b"graph g { // a -- b".to_vec(), node_line("a", 1, "1.0", "1.0", "#000000")];
    let g = parse_lines(&lines).expect("parses");
    assert_eq!(g.nodes.len(), 1);
    assert_eq!(g.edges.len(), 0);
}

#[test]
fn directed_edge_counts_degrees_too() {
    let lines = vec![
        node_line("x", 1, "1.0", "1.0", "#000000"),
        node_line("y", 1, "1.0", "1.0", "#000000"),
        b"x -> y".to_vec(),
    ];
    let g = parse_lines(&lines).expect("parses");
    assert_eq!(g.edges.len(), 1);
    assert_eq!((g.edges[0].a, g.edges[0].b), (0, 1));
    assert_eq!((g.nodes[0].degree, g.nodes[1].degree), (1, 1));
}

#[test]
fn self_loop_counts_twice() {
    let lines = vec![node_line("a", 1, "1.0", "1.0", "#000000"), b"a -- a".to_vec()];
    let g = parse_lines(&lines).expect("parses");
    assert_eq!(g.nodes[0].degree, 2);
}

#[test]
fn name_whitespace_is_stripped() {
    let line = node_line("  spaced name ", 1, "1.0", "1.0", "#000000");
    let nd = parse_node_line(&line).expect("parses");
    assert_eq!(nd.name, b"spacedname".to_vec());
}

#[test]
fn node_totals_add_up() {
    let lines = vec![
        node_line("A", 1, "1.0", "1.0", "#000000"),
        node_line("B", 1, "1.0", "1.0", "#000000"),
        node_line("lone", 1, "1.0", "1.0", "#000000"),
        b"A -- B".to_vec(),
    ];
    let cfg = test_config();
    let g = read_dot(&lines, &cfg, 5).expect("loads");
    let connected = g.sim.iter().filter(|n| !matches!(n.role, NodeRole::Disconnected)).count();
    assert_eq!(g.total_nodes, g.total_disconnected_nodes + connected);
    assert_eq!(connected, g.nodes.iter().filter(|n| n.degree > 0).count());
}

#[test]
fn disconnected_row_and_placement() {
    let lines = vec![
        node_line("A", 1, "1.0", "1.0", "#000000"),
        node_line("B", 1, "1.0", "1.0", "#000000"),
        node_line("d1", 1, "1.0", "1.0", "#000000"),
        node_line("d2", 1, "1.0", "1.0", "#000000"),
        b"A -- B".to_vec(),
    ];
    let cfg = test_config();
    let g = read_dot(&lines, &cfg, 5).expect("loads");
    // the disconnected row advances by row_spacing * draw_scale per node
    assert_eq!((g.sim[2].x, g.sim[2].y), (0, 0));
    assert_eq!((g.sim[3].x, g.sim[3].y), (0, 15_000));
    let r = update_graph(g);
    // a disconnected node is drawn beyond the bottom-right corner
    let (px, py) = placed_position(&r, 2);
    assert_eq!(px, r.sim[2].x + r.graph_dimensions.right + 15_000);
    assert_eq!(py, r.sim[2].y + r.graph_dimensions.bottom);
    // a connected node is drawn where it sits
    let (qx, qy) = placed_position(&r, 0);
    assert_eq!((qx, qy), (r.sim[0].x, r.sim[0].y));
}

#[test]
fn node_mass_formula() {
    // 0.6 * scale * degree, in milliunits: 6 * 10000 * 3 / 10
    assert_eq!(get_node_mass(3, 10_000), 18_000);
    assert_eq!(get_node_mass(0, 10_000), 0);
    assert_eq!(get_node_mass(1, 1_000), 600);
}

#[test]
fn seeded_rng_is_reproducible() {
    let mut a = SeededRng::new(9);
    let mut b = SeededRng::new(9);
    for _ in 0..10 {
        let x = a.next_in_range(500_000);
        let y = b.next_in_range(500_000);
        assert_eq!(x, y);
        assert!((-500_000..=500_000).contains(&x));
    }
}

#[test]
fn integer_square_root() {
    assert_eq!(isqrt64(0), 0);
    assert_eq!(isqrt64(1), 1);
    assert_eq!(isqrt64(8), 2);
    assert_eq!(isqrt64(9), 3);
    assert_eq!(isqrt64(10), 3);
    assert_eq!(isqrt64(u64::MAX), 4_294_967_295);
}

#[test]
fn standard_config() {
    let c = LayoutConfig::standard(10_000);
    assert_eq!(c.draw_scale, 10_000);
    assert_eq!(c.force_divisor, 50);
    assert_eq!(c.half_extent, 500_000);
    assert_eq!(c.row_spacing, 15);
}

#[test]
fn redeclared_node_keeps_degree() {
    let lines = vec![
        node_line("A", 1, "1.0", "1.0", "#000000"),
        node_line("B", 1, "1.0", "1.0", "#000000"),
        b"A -- B".to_vec(),
        node_line("A", 9, "3.0", "4.0", "#ffffff"),
    ];
    let g = parse_lines(&lines).expect("parses");
    assert_eq!(g.nodes.len(), 2);
    assert_eq!(g.nodes[0].cardinality, 9);
    assert_eq!(g.nodes[0].degree, 1);
}
