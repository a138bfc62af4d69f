use debugdump::model::{GraphError, HostData, NodeRef, ScheduleData, SetInfo, SystemInfo};
use debugdump::picture::Style;
use debugdump::schedule_graph::{render_schedule, Settings};
use debugdump::{find_schedule, schedule_at, schedule_graph_dot};

fn system(name: &str) -> SystemInfo {
    SystemInfo { name: name.to_string(), reads: vec![], writes: vec![] }
}

fn set(name: &str) -> SetInfo {
    SetInfo { name: name.to_string() }
}

fn schedule(systems: &[&str], sets: &[&str]) -> ScheduleData {
    ScheduleData {
        label: "Update".to_string(),
        systems: systems.iter().map(|n| system(n)).collect(),
        sets: sets.iter().map(|n| set(n)).collect(),
        hierarchy: vec![],
        dependency: vec![],
        ambiguities: vec![],
    }
}

fn host(schedule: ScheduleData) -> HostData {
    HostData { resources: vec![], schedules: vec![schedule], render_graph: None }
}

fn chain() -> ScheduleData {
    let mut s = schedule(&["A", "B", "C"], &[]);
    s.dependency = vec![
        (NodeRef::System(0), NodeRef::System(1)),
        (NodeRef::System(1), NodeRef::System(2)),
        (NodeRef::System(0), NodeRef::System(2)),
    ];
    s
}

fn all() -> Settings<fn(&SystemInfo) -> bool> {
    Settings::new()
}

fn plain() -> Style {
    Style { transitive_reduction: true, inline_single_member_sets: false }
}

fn nodes(dot: &str) -> usize {
    dot.matches("\"shape\"=\"box\"").count()
}

fn clusters(dot: &str) -> usize {
    dot.matches("subgraph ").count()
}

fn arrows(dot: &str) -> usize {
    dot.matches(" -> ").count()
}

#[test]
fn redundant_edge_is_dropped() {
    let dot = schedule_graph_dot(&host(chain()), "Update", &all()).unwrap();
    println!("{}", dot);
    assert_eq!(nodes(&dot), 3);
    assert_eq!(arrows(&dot), 2);
    let expected = [
        "digraph \"Update\" {",
        "  \"compound\"=\"true\";",
        "  \"Update_2e_system_2e_A\" [\"label\"=\"A\", \"shape\"=\"box\"];",
        "  \"Update_2e_system_2e_B\" [\"label\"=\"B\", \"shape\"=\"box\"];",
        "  \"Update_2e_system_2e_C\" [\"label\"=\"C\", \"shape\"=\"box\"];",
        "  \"Update_2e_system_2e_A\" -> \"Update_2e_system_2e_B\" [\"style\"=\"solid\"];",
        "  \"Update_2e_system_2e_B\" -> \"Update_2e_system_2e_C\" [\"style\"=\"solid\"];",
        "}",
        "",
    ];
    assert_eq!(dot, expected.join("\n"));
    assert!(dot.contains("\"Update_2e_system_2e_A\" -> \"Update_2e_system_2e_B\""));
    assert!(dot.contains("\"Update_2e_system_2e_B\" -> \"Update_2e_system_2e_C\""));
    assert!(!dot.contains("\"Update_2e_system_2e_A\" -> \"Update_2e_system_2e_C\""));
}

#[test]
fn redundant_edge_goes_wherever_it_stands() {
    let mut s = chain();
    s.dependency.rotate_right(1);
    let dot = schedule_graph_dot(&host(s), "Update", &all()).unwrap();
    assert_eq!(arrows(&dot), 2);
    assert!(!dot.contains("\"Update_2e_system_2e_A\" -> \"Update_2e_system_2e_C\""));
}

#[test]
fn reduction_can_be_turned_off() {
    let mut settings = all();
    settings.style.transitive_reduction = false;
    let dot = schedule_graph_dot(&host(chain()), "Update", &settings).unwrap();
    assert_eq!(arrows(&dot), 3);
}

#[test]
fn a_missing_schedule_is_found_missing() {
    let h = host(chain());
    assert_eq!(find_schedule(&h, "Nope"), None);
    assert_eq!(find_schedule(&h, ""), None);
    assert_eq!(find_schedule(&h, "Update"), Some(0));
    assert_eq!(schedule_at(&h, "Update"), 0);
    assert_eq!(GraphError::ScheduleMissing.message(), "schedule doesn't exist");
}

#[test]
fn first_schedule_of_a_label_is_drawn() {
    let mut second = schedule(&["Z"], &[]);
    second.label = "Update".to_string();
    let h = HostData { resources: vec![], schedules: vec![chain(), second], render_graph: None };
    let dot = schedule_graph_dot(&h, "Update", &all()).unwrap();
    assert_eq!(nodes(&dot), 3);
}

#[test]
fn rejecting_every_system_leaves_an_empty_graph() {
    let mut s = chain();
    s.sets = vec![set("S")];
    s.hierarchy = vec![(0, NodeRef::System(0))];
    let settings = Settings {
        include_system: Some(|_: &SystemInfo| false),
        ambiguities: true,
        style: plain(),
    };
    let dot = schedule_graph_dot(&host(s), "Update", &settings).unwrap();
    println!("{}", dot);
    assert_eq!(dot, "digraph \"Update\" {\n  \"compound\"=\"true\";\n}\n");
}

#[test]
fn filter_keeps_the_sets_above_what_is_shown() {
    // Outer holds Inner and Other; Inner holds A; Other holds B; C stands alone.
    let mut s = schedule(&["A", "B", "C"], &["Outer", "Inner", "Other"]);
    s.hierarchy = vec![
        (0, NodeRef::SystemSet(1)),
        (0, NodeRef::SystemSet(2)),
        (1, NodeRef::System(0)),
        (2, NodeRef::System(1)),
    ];
    let settings = Settings {
        include_system: Some(|s: &SystemInfo| s.name == "A"),
        ambiguities: true,
        style: plain(),
    };
    let dot = schedule_graph_dot(&host(s), "Update", &settings).unwrap();
    println!("{}", dot);
    assert_eq!(nodes(&dot), 1);
    assert_eq!(clusters(&dot), 2);
    assert!(dot.contains("\"label\"=\"Outer\""));
    assert!(dot.contains("\"label\"=\"Inner\""));
    assert!(!dot.contains("\"label\"=\"Other\""));
    assert!(!dot.contains("\"label\"=\"B\""));
    assert!(!dot.contains("\"label\"=\"C\""));
}

#[test]
fn mask_entries_say_which_systems_are_shown() {
    let dot = render_schedule(&chain(), &vec![true, false], true, plain()).unwrap();
    // B is hidden; C has no entry and is shown; only the edge from A to C is left
    assert_eq!(nodes(&dot), 2);
    assert_eq!(arrows(&dot), 1);
    assert!(dot.contains("\"Update_2e_system_2e_A\" -> \"Update_2e_system_2e_C\""));
}

#[test]
fn nested_sets_become_nested_clusters() {
    let mut s = schedule(&["A", "B"], &["Outer", "Inner"]);
    s.hierarchy = vec![
        (0, NodeRef::SystemSet(1)),
        (1, NodeRef::System(0)),
        (0, NodeRef::System(1)),
    ];
    s.dependency = vec![(NodeRef::SystemSet(1), NodeRef::System(1))];
    let dot = schedule_graph_dot(&host(s), "Update", &all()).unwrap();
    println!("{}", dot);
    let expected = [
        "digraph \"Update\" {",
        "  \"compound\"=\"true\";",
        "  subgraph \"cluster_Update_2e_set_2e_Outer\" {",
        "    \"label\"=\"Outer\";",
        "    \"Update_2e_set_2e_Outer\" [\"shape\"=\"point\", \"style\"=\"invis\"];",
        "    \"Update_2e_system_2e_B\" [\"label\"=\"B\", \"shape\"=\"box\"];",
        "    subgraph \"cluster_Update_2e_set_2e_Inner\" {",
        "      \"label\"=\"Inner\";",
        "      \"Update_2e_set_2e_Inner\" [\"shape\"=\"point\", \"style\"=\"invis\"];",
        "      \"Update_2e_system_2e_A\" [\"label\"=\"A\", \"shape\"=\"box\"];",
        "    }",
        "  }",
        "  \"Update_2e_set_2e_Inner\" -> \"Update_2e_system_2e_B\" [\"style\"=\"solid\", \"ltail\"=\"cluster_Update_2e_set_2e_Inner\"];",
        "}",
        "",
    ];
    assert_eq!(dot, expected.join("\n"));
}

#[test]
fn a_node_in_several_sets_is_drawn_in_the_lowest() {
    let mut s = schedule(&["A"], &["One", "Two"]);
    s.hierarchy = vec![(1, NodeRef::System(0)), (0, NodeRef::System(0))];
    let dot = schedule_graph_dot(&host(s.clone()), "Update", &all()).unwrap();
    println!("{}", dot);
    // only the set that the system is drawn in holds a shown system
    assert_eq!(clusters(&dot), 1);
    assert!(dot.contains("\"label\"=\"One\""));
    // the order of the entries does not matter, nor does a repeated entry
    s.hierarchy = vec![
        (0, NodeRef::System(0)),
        (1, NodeRef::System(0)),
        (0, NodeRef::System(0)),
    ];
    assert_eq!(schedule_graph_dot(&host(s), "Update", &all()).unwrap(), dot);
}

#[test]
fn ambiguity_is_its_own_kind_of_edge() {
    let mut s = schedule(&["X", "Y"], &[]);
    s.ambiguities = vec![(1, 0), (0, 1)];
    let dot = schedule_graph_dot(&host(s), "Update", &all()).unwrap();
    println!("{}", dot);
    assert_eq!(arrows(&dot), 1);
    assert_eq!(dot.matches("\"style\"=\"dashed\"").count(), 1);
    assert_eq!(dot.matches("\"style\"=\"solid\"").count(), 0);
    assert_eq!(dot.matches("\"dir\"=\"none\"").count(), 1);
    assert!(dot.contains("\"Update_2e_system_2e_X\" -> \"Update_2e_system_2e_Y\""));
}

#[test]
fn an_ordered_pair_is_not_ambiguous() {
    let mut s = schedule(&["X", "Y"], &[]);
    s.dependency = vec![(NodeRef::System(1), NodeRef::System(0))];
    s.ambiguities = vec![(0, 1)];
    let dot = schedule_graph_dot(&host(s), "Update", &all()).unwrap();
    assert_eq!(arrows(&dot), 1);
    assert_eq!(dot.matches("\"style\"=\"dashed\"").count(), 0);
    assert_eq!(dot.matches("\"style\"=\"solid\"").count(), 1);
}

#[test]
fn ambiguities_can_be_left_out() {
    let mut s = schedule(&["X", "Y"], &[]);
    s.ambiguities = vec![(0, 1)];
    let mut settings = all();
    settings.ambiguities = false;
    let dot = schedule_graph_dot(&host(s), "Update", &settings).unwrap();
    assert_eq!(arrows(&dot), 0);
}

#[test]
fn an_edge_between_unrelated_sets_stays() {
    // A in S, C in T, B at the top level: A -> B -> C makes A -> C redundant,
    // but S and T are not nested, so the edge stays.
    let mut s = schedule(&["A", "B", "C"], &["S", "T"]);
    s.hierarchy = vec![(0, NodeRef::System(0)), (1, NodeRef::System(2))];
    s.dependency = vec![
        (NodeRef::System(0), NodeRef::System(1)),
        (NodeRef::System(1), NodeRef::System(2)),
        (NodeRef::System(0), NodeRef::System(2)),
    ];
    let dot = schedule_graph_dot(&host(s), "Update", &all()).unwrap();
    assert_eq!(arrows(&dot), 3);
}

#[test]
fn an_edge_between_nested_sets_goes() {
    // A in S, C in T, T in S
    let mut s = schedule(&["A", "B", "C"], &["S", "T"]);
    s.hierarchy = vec![
        (0, NodeRef::System(0)),
        (1, NodeRef::System(2)),
        (0, NodeRef::SystemSet(1)),
    ];
    s.dependency = vec![
        (NodeRef::System(0), NodeRef::System(1)),
        (NodeRef::System(1), NodeRef::System(2)),
        (NodeRef::System(0), NodeRef::System(2)),
    ];
    let dot = schedule_graph_dot(&host(s), "Update", &all()).unwrap();
    assert_eq!(arrows(&dot), 2);
}

#[test]
fn a_cycle_of_edges_keeps_every_node_reachable() {
    let mut s = schedule(&["A", "B"], &[]);
    s.dependency = vec![
        (NodeRef::System(0), NodeRef::System(1)),
        (NodeRef::System(1), NodeRef::System(0)),
    ];
    let dot = schedule_graph_dot(&host(s), "Update", &all()).unwrap();
    assert_eq!(arrows(&dot), 2);
}

#[test]
fn duplicate_edges_are_merged() {
    let mut s = schedule(&["A", "B"], &[]);
    s.dependency = vec![
        (NodeRef::System(0), NodeRef::System(1)),
        (NodeRef::System(0), NodeRef::System(1)),
    ];
    let mut settings = all();
    settings.style.transitive_reduction = false;
    let dot = schedule_graph_dot(&host(s), "Update", &settings).unwrap();
    assert_eq!(arrows(&dot), 1);
}

#[test]
fn single_member_sets_can_be_inlined() {
    let mut s = schedule(&["A", "B", "C"], &["Solo", "Pair", "Wrap"]);
    s.hierarchy = vec![
        (2, NodeRef::SystemSet(0)),
        (0, NodeRef::System(0)),
        (1, NodeRef::System(1)),
        (1, NodeRef::System(2)),
    ];
    let kept = schedule_graph_dot(&host(s.clone()), "Update", &all()).unwrap();
    assert_eq!(clusters(&kept), 3);
    let mut settings = all();
    settings.style.inline_single_member_sets = true;
    let dot = schedule_graph_dot(&host(s), "Update", &settings).unwrap();
    println!("{}", dot);
    assert_eq!(clusters(&dot), 1);
    assert_eq!(nodes(&dot), 3);
    assert!(dot.contains("\"label\"=\"Pair\""));
    assert!(!dot.contains("\"label\"=\"Solo\""));
    assert!(!dot.contains("\"label\"=\"Wrap\""));
}

#[test]
fn a_single_member_set_with_an_edge_is_not_inlined() {
    let mut s = schedule(&["A", "B"], &["Solo"]);
    s.hierarchy = vec![(0, NodeRef::System(0))];
    s.dependency = vec![(NodeRef::SystemSet(0), NodeRef::System(1))];
    let mut settings = all();
    settings.style.inline_single_member_sets = true;
    let dot = schedule_graph_dot(&host(s), "Update", &settings).unwrap();
    println!("{}", dot);
    assert_eq!(clusters(&dot), 1);
    assert!(dot.contains("\"ltail\"=\"cluster_Update_2e_set_2e_Solo\""));
}

#[test]
fn containment_cycle_is_reported() {
    let mut s = schedule(&["A"], &["S", "T"]);
    s.hierarchy = vec![
        (0, NodeRef::SystemSet(1)),
        (1, NodeRef::SystemSet(0)),
        (0, NodeRef::System(0)),
    ];
    let r = schedule_graph_dot(&host(s), "Update", &all());
    assert_eq!(r, Err(GraphError::ContainmentCycle(0)));
    assert_eq!(
        GraphError::ContainmentCycle(0).message(),
        "containment cycle through node: 0"
    );
}

#[test]
fn a_set_that_holds_itself_is_a_cycle() {
    let mut s = schedule(&["A"], &["S"]);
    s.hierarchy = vec![(0, NodeRef::SystemSet(0))];
    let r = schedule_graph_dot(&host(s), "Update", &all());
    assert_eq!(r, Err(GraphError::ContainmentCycle(1)));
}

#[test]
fn dangling_references_are_reported() {
    let mut s = schedule(&["A"], &["S"]);
    s.hierarchy = vec![(0, NodeRef::System(0)), (1, NodeRef::System(0))];
    assert_eq!(
        render_schedule(&s, &vec![], true, plain()),
        Err(GraphError::DanglingHierarchy(1))
    );
    s.hierarchy = vec![(0, NodeRef::System(5))];
    assert_eq!(
        render_schedule(&s, &vec![], true, plain()),
        Err(GraphError::DanglingHierarchy(0))
    );
    s.hierarchy = vec![];
    s.dependency = vec![(NodeRef::System(0), NodeRef::SystemSet(3))];
    assert_eq!(
        render_schedule(&s, &vec![], true, plain()),
        Err(GraphError::DanglingDependency(0))
    );
    s.dependency = vec![];
    s.ambiguities = vec![(0, 0), (0, 1)];
    assert_eq!(
        render_schedule(&s, &vec![], true, plain()),
        Err(GraphError::DanglingAmbiguity(1))
    );
    assert_eq!(
        GraphError::DanglingAmbiguity(12).message(),
        "ambiguity names a missing system: 12"
    );
    assert_eq!(
        GraphError::DanglingHierarchy(7).message(),
        "containment entry names a missing node: 7"
    );
    assert_eq!(
        GraphError::DanglingDependency(305).message(),
        "ordering entry names a missing node: 305"
    );
    assert_eq!(
        GraphError::DanglingAccess(0).message(),
        "system touches a missing resource: 0"
    );
    assert_eq!(GraphError::TooManyNodes.message(), "too many systems and sets");
}

#[test]
fn two_renders_give_the_same_text() {
    let mut s = schedule(&["A", "B", "C"], &["S", "T"]);
    s.hierarchy = vec![(0, NodeRef::System(0)), (1, NodeRef::System(2))];
    s.dependency = vec![(NodeRef::System(0), NodeRef::System(1))];
    s.ambiguities = vec![(1, 2)];
    let h = host(s);
    let one = schedule_graph_dot(&h, "Update", &all()).unwrap();
    let two = schedule_graph_dot(&h.clone(), "Update", &all()).unwrap();
    assert_eq!(one, two);
}

#[test]
fn every_cluster_closes_and_every_edge_joins_declared_nodes() {
    let mut s = schedule(&["A", "B", "C"], &["S", "T", "U"]);
    s.hierarchy = vec![
        (0, NodeRef::SystemSet(1)),
        (1, NodeRef::SystemSet(2)),
        (2, NodeRef::System(0)),
        (0, NodeRef::System(1)),
    ];
    s.dependency = vec![
        (NodeRef::System(0), NodeRef::System(2)),
        (NodeRef::SystemSet(2), NodeRef::System(1)),
    ];
    let dot = schedule_graph_dot(&host(s), "Update", &all()).unwrap();
    println!("{}", dot);
    assert_eq!(dot.matches('{').count(), dot.matches('}').count());
    assert_eq!(clusters(&dot), 3);
    for line in dot.lines().filter(|l| l.contains(" -> ")) {
        let mut ends = line.trim().split(" -> ");
        let from = ends.next().unwrap();
        let to = ends.next().unwrap().split(' ').next().unwrap();
        assert!(dot.contains(&format!("{} [", from)), "{}", from);
        assert!(dot.contains(&format!("{} [", to)), "{}", to);
    }
}

#[test]
fn colliding_names_get_ranks() {
    let s = schedule(&["run", "run", "r.n", "r_n"], &[]);
    let dot = schedule_graph_dot(&host(s), "Update", &all()).unwrap();
    println!("{}", dot);
    assert!(dot.contains("\"Update_2e_system_2e_run_0\" ["));
    assert!(dot.contains("\"Update_2e_system_2e_run_1\" ["));
    assert!(dot.contains("\"Update_2e_system_2e_r_2e_n\" ["));
    assert!(dot.contains("\"Update_2e_system_2e_r__n\" ["));
}

#[test]
fn labels_are_escaped() {
    let s = schedule(&["say \"hi\"\\\n"], &[]);
    let dot = schedule_graph_dot(&host(s), "Update", &all()).unwrap();
    println!("{}", dot);
    assert!(dot.contains("\"label\"=\"say \\\"hi\\\"\\\\\\n\""));
}
