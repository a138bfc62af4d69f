use debugdump::collapse::{collapse, is_inlined};
use debugdump::extract::{find_container, height, make_key, schedule_graph};
use debugdump::graph::{holds, Edge, EdgeKind, Graph, Name, Node, NodeKind};
use debugdump::ident::{assign_ids, push_normalized, text_less, text_same};
use debugdump::model::{NodeRef, ScheduleData, SetInfo, SystemInfo};
use debugdump::picture::{draw, Style};
use debugdump::plan::{make_plan, Item};
use debugdump::reach::reach_from;
use debugdump::reduce::{is_near, reduce};
use debugdump::render::{link_attr_list, node_attr_list, render};
use debugdump::simplify::{has_edge, prune, same_edge, shown_edges};

fn node(kind: NodeKind, container: Option<usize>, level: usize) -> Node {
    Node { kind, container, level }
}

fn name(text: &str) -> Name {
    Name { key: format!("k.{}", text), label: text.to_string() }
}

fn order(from: usize, to: usize) -> Edge {
    Edge { kind: EdgeKind::Order, from, to }
}

// A in S, B in T, T in S, C at the top level; B is hidden.
fn sample() -> Graph {
    Graph {
        nodes: vec![
            node(NodeKind::System, Some(3), 1),
            node(NodeKind::System, Some(4), 2),
            node(NodeKind::System, None, 0),
            node(NodeKind::SystemSet, None, 0),
            node(NodeKind::SystemSet, Some(3), 1),
        ],
        visible: vec![true, false, true, true, true],
        names: vec![name("A"), name("B"), name("C"), name("S"), name("T")],
        edges: vec![order(0, 1), order(1, 2), order(0, 2)],
    }
}

#[test]
fn containment_is_a_forest_of_edges() {
    let g = sample();
    assert_eq!(
        g.containment(),
        vec![
            Edge { kind: EdgeKind::Contains, from: 3, to: 0 },
            Edge { kind: EdgeKind::Contains, from: 4, to: 1 },
            Edge { kind: EdgeKind::Contains, from: 3, to: 4 },
        ]
    );
}

#[test]
fn sets_hold_what_stands_in_them_at_any_depth() {
    let g = sample();
    assert!(holds(&g.nodes, 3, 1));
    assert!(holds(&g.nodes, 4, 1));
    assert!(holds(&g.nodes, 3, 3));
    assert!(!holds(&g.nodes, 4, 0));
    assert!(!holds(&g.nodes, 3, 2));
    assert!(!holds(&g.nodes, 1, 4));
}

#[test]
fn pruning_drops_empty_sets_and_loose_edges() {
    let g = prune(sample());
    assert_eq!(g.visible, vec![true, false, true, true, false]);
    assert_eq!(g.edges, vec![order(0, 2)]);
    assert_eq!(g.nodes, sample().nodes);
}

#[test]
fn pruning_drops_untouched_resources() {
    let g = Graph {
        nodes: vec![
            node(NodeKind::Resource, None, 0),
            node(NodeKind::Resource, None, 0),
            node(NodeKind::Resource, None, 0),
            node(NodeKind::System, None, 0),
            node(NodeKind::System, None, 0),
        ],
        visible: vec![true, true, false, true, false],
        names: vec![name("r0"), name("r1"), name("r2"), name("s0"), name("s1")],
        edges: vec![
            Edge { kind: EdgeKind::Read, from: 3, to: 0 },
            Edge { kind: EdgeKind::Write, from: 4, to: 1 },
            Edge { kind: EdgeKind::Write, from: 3, to: 2 },
        ],
    };
    let p = prune(g);
    // r1 is touched by a hidden system only; r2 was hidden before
    assert_eq!(p.visible, vec![true, false, false, true, false]);
    assert_eq!(p.edges, vec![Edge { kind: EdgeKind::Read, from: 3, to: 0 }]);
}

#[test]
fn edges_between_shown_nodes_stay() {
    let edges = vec![order(0, 1), order(1, 2), order(2, 0)];
    assert_eq!(shown_edges(&vec![true, true, false], &edges), vec![order(0, 1)]);
    assert!(same_edge(&order(0, 1), &order(0, 1)));
    assert!(!same_edge(&order(0, 1), &order(1, 0)));
    assert!(!same_edge(&order(0, 1), &Edge { kind: EdgeKind::Ambiguous, from: 0, to: 1 }));
    assert!(has_edge(&edges, 3, &order(2, 0)));
    assert!(!has_edge(&edges, 2, &order(2, 0)));
}

#[test]
fn inlining_lifts_the_single_member() {
    let pruned = prune(sample());
    assert!(is_inlined(&pruned, 3));
    assert!(!is_inlined(&pruned, 4));
    assert!(!is_inlined(&pruned, 0));
    let g = collapse(pruned);
    assert_eq!(g.nodes[0].container, None);
    assert_eq!(g.visible, vec![true, false, true, false, false]);
    assert_eq!(g.edges, vec![order(0, 2)]);
}

#[test]
fn inlining_skips_a_chain_of_single_member_sets() {
    let mut g = sample();
    g.visible = vec![false, true, true, true, true];
    g.edges = vec![];
    let c = collapse(prune(g));
    // S holds only T, T holds only B: both go, B stands at the top level
    assert_eq!(c.nodes[1].container, None);
    assert_eq!(c.visible, vec![false, true, true, false, false]);
}

#[test]
fn reachability_follows_live_ordering_edges() {
    let edges = vec![
        order(0, 1),
        order(1, 2),
        Edge { kind: EdgeKind::Ambiguous, from: 2, to: 3 },
        order(3, 0),
    ];
    let all = vec![true; 4];
    assert_eq!(reach_from(&edges, &all, 5, 0), vec![true, true, true, false, false]);
    assert_eq!(reach_from(&edges, &all, 5, 3), vec![true, true, true, true, false]);
    assert_eq!(reach_from(&edges, &all, 5, 4), vec![false, false, false, false, true]);
    let cut = vec![true, false, true, true];
    assert_eq!(reach_from(&edges, &cut, 5, 3), vec![true, true, false, true, false]);
}

#[test]
fn reduction_keeps_reachability() {
    let nodes = vec![node(NodeKind::System, None, 0); 5];
    let edges = vec![
        order(0, 1),
        order(0, 2),
        order(1, 2),
        order(2, 3),
        order(0, 3),
        order(1, 3),
        Edge { kind: EdgeKind::Ambiguous, from: 0, to: 3 },
        order(3, 4),
        order(4, 3),
    ];
    let reduced = reduce(&nodes, &edges);
    assert_eq!(
        reduced,
        vec![
            order(0, 1),
            order(1, 2),
            order(2, 3),
            Edge { kind: EdgeKind::Ambiguous, from: 0, to: 3 },
            order(3, 4),
            order(4, 3),
        ]
    );
    let before = vec![true; edges.len()];
    let after = vec![true; reduced.len()];
    for src in 0..5 {
        assert_eq!(
            reach_from(&edges, &before, 5, src),
            reach_from(&reduced, &after, 5, src)
        );
    }
}

#[test]
fn near_nodes_stand_in_nested_sets() {
    let g = sample();
    assert!(is_near(&g.nodes, 0, 1));
    assert!(is_near(&g.nodes, 1, 0));
    assert!(is_near(&g.nodes, 0, 2));
    let apart = vec![
        node(NodeKind::System, Some(2), 1),
        node(NodeKind::System, Some(3), 1),
        node(NodeKind::SystemSet, None, 0),
        node(NodeKind::SystemSet, None, 0),
    ];
    assert!(!is_near(&apart, 0, 1));
    assert!(is_near(&apart, 0, 0));
}

#[test]
fn the_plan_nests_and_then_links() {
    let mut g = sample();
    g.visible = vec![true; 5];
    g.edges.push(Edge { kind: EdgeKind::Contains, from: 3, to: 0 });
    assert_eq!(
        make_plan(&g),
        vec![
            Item::Node(2),
            Item::Open(3),
            Item::Node(0),
            Item::Open(4),
            Item::Node(1),
            Item::Close,
            Item::Close,
            Item::Link(order(0, 1)),
            Item::Link(order(1, 2)),
            Item::Link(order(0, 2)),
        ]
    );
}

#[test]
fn identifiers_are_normalized_keys() {
    let mut s = String::new();
    push_normalized(&mut s, "Az09_ :é");
    assert_eq!(s, "Az09___20__3a__e9_");
    let names: Vec<Name> = ["a.b", "a_b", "a.b", "x", "a.b", "a:b"]
        .iter()
        .map(|k| Name { key: k.to_string(), label: String::new() })
        .collect();
    assert_eq!(
        assign_ids(&names),
        vec!["a_2e_b_0", "a__b", "a_2e_b_1", "x", "a_2e_b_2", "a_3a_b"]
    );
    assert_eq!(make_key("Update", NodeKind::System, "run"), "Update.system.run");
    assert_eq!(make_key("", NodeKind::SystemSet, ""), ".set.");
    assert_eq!(make_key("w", NodeKind::Resource, "R"), "w.resource.R");
}

#[test]
fn texts_are_ordered_as_in_a_dictionary() {
    let t = |s: &str| s.chars().collect::<Vec<char>>();
    assert!(text_less(&t("a"), &t("b")));
    assert!(text_less(&t("a"), &t("ab")));
    assert!(text_less(&t(""), &t("a")));
    assert!(!text_less(&t("ab"), &t("a")));
    assert!(!text_less(&t("a"), &t("a")));
    assert!(!text_less(&t(""), &t("")));
    assert!(text_same(&t("ab"), &t("ab")));
    assert!(!text_same(&t("ab"), &t("a")));
    assert!(!text_same(&t("ab"), &t("ac")));
}

#[test]
fn the_graph_of_a_schedule() {
    let data = ScheduleData {
        label: "L".to_string(),
        systems: vec![
            SystemInfo { name: "a".to_string(), reads: vec![], writes: vec![] },
            SystemInfo { name: "b".to_string(), reads: vec![], writes: vec![] },
        ],
        sets: vec![SetInfo { name: "s".to_string() }, SetInfo { name: "t".to_string() }],
        hierarchy: vec![
            (1, NodeRef::System(0)),
            (0, NodeRef::SystemSet(1)),
            (0, NodeRef::System(0)),
        ],
        dependency: vec![(NodeRef::SystemSet(1), NodeRef::System(1))],
        ambiguities: vec![(1, 0)],
    };
    // a is held by t and by s: it stands in s, the set at the lower position
    assert_eq!(find_container(&data, 0), Some(2));
    assert_eq!(find_container(&data, 1), None);
    assert_eq!(find_container(&data, 3), Some(2));
    let g = schedule_graph(&data, &vec![true, false], true).unwrap();
    assert_eq!(
        g.nodes,
        vec![
            node(NodeKind::System, Some(2), 1),
            node(NodeKind::System, None, 0),
            node(NodeKind::SystemSet, None, 0),
            node(NodeKind::SystemSet, Some(2), 1),
        ]
    );
    assert_eq!(g.visible, vec![true, false, true, true]);
    assert_eq!(
        g.edges,
        vec![order(3, 1), Edge { kind: EdgeKind::Ambiguous, from: 0, to: 1 }]
    );
    let keys: Vec<&str> = g.names.iter().map(|n| n.key.as_str()).collect();
    assert_eq!(keys, vec!["L.system.a", "L.system.b", "L.set.s", "L.set.t"]);
    let labels: Vec<&str> = g.names.iter().map(|n| n.label.as_str()).collect();
    assert_eq!(labels, vec!["a", "b", "s", "t"]);
    let without = schedule_graph(&data, &vec![], false).unwrap();
    assert_eq!(without.edges, vec![order(3, 1)]);
    assert_eq!(without.visible, vec![true; 4]);
}

#[test]
fn heights_count_the_containers_above() {
    let parents = vec![Some(1), Some(2), None, Some(3), Some(5), Some(4)];
    assert_eq!(height(&parents, 2), Some(0));
    assert_eq!(height(&parents, 0), Some(2));
    assert_eq!(height(&parents, 3), None);
    assert_eq!(height(&parents, 4), None);
}

#[test]
fn the_style_table() {
    let pairs = |v: Vec<debugdump::dot::Attr>| -> Vec<(String, String)> {
        v.into_iter().map(|a| (a.key, a.value)).collect()
    };
    let p = |k: &str, v: &str| (k.to_string(), v.to_string());
    assert_eq!(
        pairs(node_attr_list(NodeKind::System, "s")),
        vec![p("label", "s"), p("shape", "box")]
    );
    assert_eq!(
        pairs(node_attr_list(NodeKind::Resource, "r")),
        vec![p("label", "r"), p("shape", "ellipse")]
    );
    assert_eq!(
        pairs(node_attr_list(NodeKind::SystemSet, "t")),
        vec![p("shape", "point"), p("style", "invis")]
    );
    let g = sample();
    let ids: Vec<String> = ["a", "b", "c", "s", "t"].iter().map(|s| s.to_string()).collect();
    assert_eq!(pairs(link_attr_list(&g.nodes, &ids, order(0, 1))), vec![p("style", "solid")]);
    assert_eq!(
        pairs(link_attr_list(&g.nodes, &ids, order(3, 4))),
        vec![p("style", "solid"), p("ltail", "cluster_s"), p("lhead", "cluster_t")]
    );
    assert_eq!(
        pairs(link_attr_list(&g.nodes, &ids, Edge { kind: EdgeKind::Ambiguous, from: 0, to: 1 })),
        vec![p("style", "dashed"), p("color", "red"), p("constraint", "false")]
    );
    assert_eq!(
        pairs(link_attr_list(&g.nodes, &ids, Edge { kind: EdgeKind::Read, from: 0, to: 2 })),
        vec![p("color", "blue")]
    );
    assert_eq!(
        pairs(link_attr_list(&g.nodes, &ids, Edge { kind: EdgeKind::Write, from: 0, to: 2 })),
        vec![p("color", "orange")]
    );
    assert_eq!(
        pairs(link_attr_list(&g.nodes, &ids, Edge { kind: EdgeKind::Contains, from: 0, to: 2 })),
        vec![]
    );
}

#[test]
fn a_plan_is_written_statement_by_statement() {
    let g = sample();
    let ids: Vec<String> = ["a", "b", "c", "s", "t"].iter().map(|s| s.to_string()).collect();
    let items = vec![
        Item::Open(3),
        Item::Node(0),
        Item::Link(Edge { kind: EdgeKind::Read, from: 0, to: 2 }),
        Item::Close,
        Item::Close,
        Item::Open(4),
    ];
    let expected = [
        "digraph \"t\" {",
        "  \"compound\"=\"true\";",
        "  subgraph \"cluster_s\" {",
        "    \"label\"=\"S\";",
        "    \"s\" [\"shape\"=\"point\", \"style\"=\"invis\"];",
        "    \"a\" [\"label\"=\"A\", \"shape\"=\"box\"];",
        "    \"c\" -> \"a\" [\"color\"=\"blue\"];",
        "  }",
        "  subgraph \"cluster_t\" {",
        "    \"label\"=\"T\";",
        "    \"t\" [\"shape\"=\"point\", \"style\"=\"invis\"];",
        "  }",
        "}",
        "",
    ];
    assert_eq!(render("t", &g.nodes, &g.names, &ids, &items), expected.join("\n"));
}

#[test]
fn a_graph_is_drawn_through_every_stage() {
    let style = Style { transitive_reduction: true, inline_single_member_sets: true };
    let expected = [
        "digraph \"sample\" {",
        "  \"compound\"=\"true\";",
        "  \"k_2e_A\" [\"label\"=\"A\", \"shape\"=\"box\"];",
        "  \"k_2e_C\" [\"label\"=\"C\", \"shape\"=\"box\"];",
        "  \"k_2e_A\" -> \"k_2e_C\" [\"style\"=\"solid\"];",
        "}",
        "",
    ];
    assert_eq!(draw(sample(), "sample", style), expected.join("\n"));
    assert_eq!(Style::default(), Style { transitive_reduction: true, inline_single_member_sets: false });
}

#[test]
fn a_graph_put_together_by_hand_can_be_tested() {
    assert!(sample().well_formed());
    let mut g = sample();
    g.nodes[3].container = Some(4);
    assert!(!g.well_formed());
    let mut g = sample();
    g.nodes[0].container = Some(2);
    assert!(!g.well_formed());
    let mut g = sample();
    g.nodes[1].level = 1;
    assert!(!g.well_formed());
    let mut g = sample();
    g.visible = vec![true, true, true, true, false];
    assert!(!g.well_formed());
    let mut g = sample();
    g.edges.push(order(0, 5));
    assert!(!g.well_formed());
    let mut g = sample();
    g.names.pop();
    assert!(!g.well_formed());
    let mut g = sample();
    g.nodes[2].level = 5;
    assert!(!g.well_formed());
}
