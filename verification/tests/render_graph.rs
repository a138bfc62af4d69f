use debugdump::model::{GraphError, HostData};
use debugdump::render_graph::{as_schedule, RenderGraphData, RenderNodeInfo, Settings, SubGraphInfo};
use debugdump::render_graph_dot;
use debugdump::model::NodeRef;

fn node(name: &str, graph: Option<usize>) -> RenderNodeInfo {
    RenderNodeInfo { name: name.to_string(), graph }
}

fn graph() -> RenderGraphData {
    RenderGraphData {
        name: "render".to_string(),
        nodes: vec![node("camera", None), node("main_pass", Some(0)), node("bloom", Some(1))],
        sub_graphs: vec![
            SubGraphInfo { name: "core_3d".to_string(), parent: None },
            SubGraphInfo { name: "post".to_string(), parent: Some(0) },
        ],
        edges: vec![(0, 1), (1, 2), (0, 2)],
    }
}

fn host(render_graph: Option<RenderGraphData>) -> HostData {
    HostData { resources: vec![], schedules: vec![], render_graph }
}

fn all() -> Settings<fn(&RenderNodeInfo) -> bool> {
    Settings::new()
}

#[test]
fn render_graph_is_drawn_like_a_schedule() {
    let dot = render_graph_dot(&host(Some(graph())), &all()).unwrap();
    println!("{}", dot);
    let expected = [
        "digraph \"render\" {",
        "  \"compound\"=\"true\";",
        "  \"render_2e_system_2e_camera\" [\"label\"=\"camera\", \"shape\"=\"box\"];",
        "  subgraph \"cluster_render_2e_set_2e_core__3d\" {",
        "    \"label\"=\"core_3d\";",
        "    \"render_2e_set_2e_core__3d\" [\"shape\"=\"point\", \"style\"=\"invis\"];",
        "    \"render_2e_system_2e_main__pass\" [\"label\"=\"main_pass\", \"shape\"=\"box\"];",
        "    subgraph \"cluster_render_2e_set_2e_post\" {",
        "      \"label\"=\"post\";",
        "      \"render_2e_set_2e_post\" [\"shape\"=\"point\", \"style\"=\"invis\"];",
        "      \"render_2e_system_2e_bloom\" [\"label\"=\"bloom\", \"shape\"=\"box\"];",
        "    }",
        "  }",
        "  \"render_2e_system_2e_camera\" -> \"render_2e_system_2e_main__pass\" [\"style\"=\"solid\"];",
        "  \"render_2e_system_2e_main__pass\" -> \"render_2e_system_2e_bloom\" [\"style\"=\"solid\"];",
        "}",
        "",
    ];
    assert_eq!(dot, expected.join("\n"));
}

#[test]
fn render_graph_as_schedule() {
    let d = as_schedule(&graph());
    assert_eq!(d.label, "render");
    assert_eq!(d.systems.len(), 3);
    assert_eq!(d.systems[2].name, "bloom");
    assert_eq!(d.sets.len(), 2);
    assert_eq!(d.sets[1].name, "post");
    assert_eq!(
        d.hierarchy,
        vec![(0, NodeRef::SystemSet(1)), (0, NodeRef::System(1)), (1, NodeRef::System(2))]
    );
    assert_eq!(
        d.dependency,
        vec![
            (NodeRef::System(0), NodeRef::System(1)),
            (NodeRef::System(1), NodeRef::System(2)),
            (NodeRef::System(0), NodeRef::System(2)),
        ]
    );
    assert!(d.ambiguities.is_empty());
}

#[test]
fn a_graph_without_nodes_is_an_empty_picture() {
    let empty = RenderGraphData {
        name: "render".to_string(),
        nodes: vec![],
        sub_graphs: vec![],
        edges: vec![],
    };
    assert_eq!(
        render_graph_dot(&host(Some(empty)), &all()).unwrap(),
        "digraph \"render\" {\n  \"compound\"=\"true\";\n}\n"
    );
}

#[test]
fn render_nodes_can_be_filtered() {
    let settings = Settings {
        include_node: Some(|n: &RenderNodeInfo| n.name != "bloom"),
        style: all().style,
    };
    let dot = render_graph_dot(&host(Some(graph())), &settings).unwrap();
    assert_eq!(dot.matches("subgraph ").count(), 1);
    assert_eq!(dot.matches(" -> ").count(), 1);
}

#[test]
fn a_node_in_a_missing_sub_graph_fails() {
    let mut g = graph();
    g.nodes.push(node("lost", Some(7)));
    assert_eq!(
        render_graph_dot(&host(Some(g)), &all()),
        Err(GraphError::DanglingHierarchy(3))
    );
}
