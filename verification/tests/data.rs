use debugdump::data_graph::{event_name, print_context, DataGraphContext, Settings};
use debugdump::event_graph::{events_graph_dot as events_context, EventGraphContext};
use debugdump::graph::{Edge, EdgeKind};
use debugdump::model::{GraphError, HostData, ScheduleData, SystemInfo};
use debugdump::picture::Style;
use debugdump::simplify::merge;
use debugdump::{data_graph_dot, events_graph_dot};

fn system(name: &str, reads: &[usize], writes: &[usize]) -> SystemInfo {
    SystemInfo { name: name.to_string(), reads: reads.to_vec(), writes: writes.to_vec() }
}

fn schedule(label: &str, systems: Vec<SystemInfo>) -> ScheduleData {
    ScheduleData {
        label: label.to_string(),
        systems,
        sets: vec![],
        hierarchy: vec![],
        dependency: vec![],
        ambiguities: vec![],
    }
}

fn host() -> HostData {
    HostData {
        resources: vec![
            "game::Score".to_string(),
            "bevy_ecs::event::Events<game::Hit>".to_string(),
            "game::Unused".to_string(),
        ],
        schedules: vec![
            schedule(
                "Update",
                vec![system("shoot", &[0], &[1]), system("count", &[1, 0], &[0, 0])],
            ),
            schedule("Last", vec![system("show", &[0], &[])]),
        ],
        render_graph: None,
    }
}

fn all() -> Settings<fn(&SystemInfo) -> bool, fn(&ScheduleData) -> bool> {
    Settings::new()
}

fn plain() -> Style {
    Style { transitive_reduction: true, inline_single_member_sets: false }
}

#[test]
fn data_graph_of_everything() {
    let dot = data_graph_dot(&host(), &all()).unwrap();
    println!("{}", dot);
    let score = "\"world_2e_resource_2e_game_3a__3a_Score\"";
    let hit =
        "\"world_2e_resource_2e_bevy__ecs_3a__3a_event_3a__3a_Events_3c_game_3a__3a_Hit_3e_\"";
    let expected = [
        "digraph \"data\" {".to_string(),
        "  \"compound\"=\"true\";".to_string(),
        format!("  {} [\"label\"=\"game::Score\", \"shape\"=\"ellipse\"];", score),
        format!(
            "  {} [\"label\"=\"bevy_ecs::event::Events<game::Hit>\", \"shape\"=\"ellipse\"];",
            hit
        ),
        "  subgraph \"cluster_Update_2e_set_2e_Update\" {".to_string(),
        "    \"label\"=\"Update\";".to_string(),
        "    \"Update_2e_set_2e_Update\" [\"shape\"=\"point\", \"style\"=\"invis\"];".to_string(),
        "    \"Update_2e_system_2e_shoot\" [\"label\"=\"shoot\", \"shape\"=\"box\"];".to_string(),
        "    \"Update_2e_system_2e_count\" [\"label\"=\"count\", \"shape\"=\"box\"];".to_string(),
        "  }".to_string(),
        "  subgraph \"cluster_Last_2e_set_2e_Last\" {".to_string(),
        "    \"label\"=\"Last\";".to_string(),
        "    \"Last_2e_set_2e_Last\" [\"shape\"=\"point\", \"style\"=\"invis\"];".to_string(),
        "    \"Last_2e_system_2e_show\" [\"label\"=\"show\", \"shape\"=\"box\"];".to_string(),
        "  }".to_string(),
        format!("  {} -> \"Update_2e_system_2e_shoot\" [\"color\"=\"blue\"];", score),
        format!("  \"Update_2e_system_2e_shoot\" -> {} [\"color\"=\"orange\"];", hit),
        format!("  {} -> \"Update_2e_system_2e_count\" [\"color\"=\"blue\"];", hit),
        format!("  \"Update_2e_system_2e_count\" -> {} [\"color\"=\"orange\"];", score),
        format!("  {} -> \"Last_2e_system_2e_show\" [\"color\"=\"blue\"];", score),
        "}".to_string(),
        "".to_string(),
    ];
    assert_eq!(dot, expected.join("\n"));
}

#[test]
fn write_wins_over_read() {
    let dot = data_graph_dot(&host(), &all()).unwrap();
    // count reads and writes Score: one orange edge, no blue one
    assert!(dot.contains(
        "\"Update_2e_system_2e_count\" -> \"world_2e_resource_2e_game_3a__3a_Score\" [\"color\"=\"orange\"];"
    ));
    assert!(!dot.contains(
        "\"world_2e_resource_2e_game_3a__3a_Score\" -> \"Update_2e_system_2e_count\""
    ));
    assert_eq!(dot.matches("\"color\"=\"orange\"").count(), 2);
    assert_eq!(dot.matches("\"color\"=\"blue\"").count(), 3);
}

#[test]
fn untouched_resources_are_not_drawn() {
    let dot = data_graph_dot(&host(), &all()).unwrap();
    assert!(!dot.contains("Unused"));
    assert_eq!(dot.matches("\"shape\"=\"ellipse\"").count(), 2);
}

#[test]
fn schedules_and_systems_can_be_filtered() {
    let settings = Settings {
        include_system: Some(|s: &SystemInfo| s.name != "count"),
        include_schedule: Some(|s: &ScheduleData| s.label == "Update"),
        style: plain(),
    };
    let dot = data_graph_dot(&host(), &settings).unwrap();
    println!("{}", dot);
    assert_eq!(dot.matches("subgraph ").count(), 1);
    assert_eq!(dot.matches("\"shape\"=\"box\"").count(), 1);
    assert!(dot.contains("\"label\"=\"shoot\""));
    assert!(!dot.contains("\"label\"=\"count\""));
    assert!(!dot.contains("\"label\"=\"show\""));
    assert_eq!(dot.matches(" -> ").count(), 2);
}

#[test]
fn rejecting_every_schedule_leaves_an_empty_graph() {
    let settings = Settings {
        include_system: None::<fn(&SystemInfo) -> bool>,
        include_schedule: Some(|_: &ScheduleData| false),
        style: plain(),
    };
    let dot = data_graph_dot(&host(), &settings).unwrap();
    assert_eq!(dot, "digraph \"data\" {\n  \"compound\"=\"true\";\n}\n");
}

#[test]
fn events_graph_shows_events_only() {
    let dot = events_graph_dot(&host(), &all()).unwrap();
    println!("{}", dot);
    let hit =
        "\"world_2e_resource_2e_bevy__ecs_3a__3a_event_3a__3a_Events_3c_game_3a__3a_Hit_3e_\"";
    let expected = [
        "digraph \"events\" {".to_string(),
        "  \"compound\"=\"true\";".to_string(),
        format!("  {} [\"label\"=\"game::Hit\", \"shape\"=\"ellipse\"];", hit),
        "  subgraph \"cluster_Update_2e_set_2e_Update\" {".to_string(),
        "    \"label\"=\"Update\";".to_string(),
        "    \"Update_2e_set_2e_Update\" [\"shape\"=\"point\", \"style\"=\"invis\"];".to_string(),
        "    \"Update_2e_system_2e_shoot\" [\"label\"=\"shoot\", \"shape\"=\"box\"];".to_string(),
        "    \"Update_2e_system_2e_count\" [\"label\"=\"count\", \"shape\"=\"box\"];".to_string(),
        "  }".to_string(),
        "  subgraph \"cluster_Last_2e_set_2e_Last\" {".to_string(),
        "    \"label\"=\"Last\";".to_string(),
        "    \"Last_2e_set_2e_Last\" [\"shape\"=\"point\", \"style\"=\"invis\"];".to_string(),
        "    \"Last_2e_system_2e_show\" [\"label\"=\"show\", \"shape\"=\"box\"];".to_string(),
        "  }".to_string(),
        format!("  \"Update_2e_system_2e_shoot\" -> {} [\"color\"=\"orange\"];", hit),
        format!("  {} -> \"Update_2e_system_2e_count\" [\"color\"=\"blue\"];", hit),
        "}".to_string(),
        "".to_string(),
    ];
    assert_eq!(dot, expected.join("\n"));
}

#[test]
fn contexts_are_drawn_in_their_order() {
    let contexts = vec![
        DataGraphContext { schedule: 1, mask: vec![] },
        DataGraphContext { schedule: 0, mask: vec![false, true] },
    ];
    let dot = print_context(&host(), &contexts, false, plain()).unwrap();
    println!("{}", dot);
    let last = dot.find("cluster_Last").unwrap();
    let update = dot.find("cluster_Update").unwrap();
    assert!(last < update);
    assert!(!dot.contains("\"label\"=\"shoot\""));
    let events = debugdump::event_graph::print_context(&host(), &contexts, plain()).unwrap();
    assert!(events.contains("\"label\"=\"game::Hit\""));
    assert!(!events.contains("Score"));
}

#[test]
fn a_context_of_a_missing_schedule_fails() {
    let contexts = vec![DataGraphContext { schedule: 2, mask: vec![] }];
    assert_eq!(
        print_context(&host(), &contexts, false, plain()),
        Err(GraphError::ScheduleMissing)
    );
}

#[test]
fn an_access_of_a_missing_resource_fails() {
    let mut h = host();
    h.schedules[1].systems.push(system("lost", &[], &[3]));
    assert_eq!(data_graph_dot(&h, &all()), Err(GraphError::DanglingAccess(1)));
    h.schedules[0].systems[0].reads.push(9);
    assert_eq!(data_graph_dot(&h, &all()), Err(GraphError::DanglingAccess(0)));
}

#[test]
fn event_names_are_recognised() {
    assert_eq!(
        event_name("bevy_ecs::event::Events<game::Hit>"),
        Some("game::Hit".to_string())
    );
    assert_eq!(
        event_name("bevy_ecs::event::Events<a::B<c::D>>"),
        Some("a::B<c::D>".to_string())
    );
    assert_eq!(event_name("bevy_ecs::event::Events<>"), None);
    assert_eq!(event_name("bevy_ecs::event::Events<x"), None);
    assert_eq!(event_name("game::Events<game::Hit>"), None);
    assert_eq!(event_name(""), None);
}

#[test]
fn merging_keeps_kinds_apart() {
    let write = |from, to| Edge { kind: EdgeKind::Write, from, to };
    let read = |from, to| Edge { kind: EdgeKind::Read, from, to };
    let ambiguous = Edge { kind: EdgeKind::Ambiguous, from: 0, to: 1 };
    let order = Edge { kind: EdgeKind::Order, from: 0, to: 1 };
    // X and Y both write resource 2 and are ambiguous
    let edges = vec![write(0, 2), write(1, 2), ambiguous, write(0, 2), ambiguous];
    assert_eq!(merge(&edges), vec![write(0, 2), write(1, 2), ambiguous]);
    // a read goes where the same system writes the same resource, wherever the write stands
    let edges = vec![read(0, 2), read(1, 2), write(0, 2), order, read(0, 3)];
    assert_eq!(merge(&edges), vec![read(1, 2), write(0, 2), order, read(0, 3)]);
    assert_eq!(merge(&vec![]), vec![]);
}

#[test]
fn two_writers_of_one_resource() {
    // X and Y both write the resource and nothing orders them
    let mut update = schedule("Update", vec![system("X", &[], &[0]), system("Y", &[], &[0])]);
    update.ambiguities = vec![(0, 1)];
    let h = HostData {
        resources: vec!["game::Score".to_string()],
        schedules: vec![update],
        render_graph: None,
    };
    let settings: debugdump::schedule_graph::Settings<fn(&SystemInfo) -> bool> =
        debugdump::schedule_graph::Settings::default();
    let picture = debugdump::schedule_graph_dot(&h, "Update", &settings).unwrap();
    assert_eq!(picture.matches("\"style\"=\"dashed\"").count(), 1);
    assert_eq!(picture.matches("\"style\"=\"solid\"").count(), 0);
    assert_eq!(picture.matches(" -> ").count(), 1);
    let data = data_graph_dot(&h, &Settings::default() as &Settings<fn(&SystemInfo) -> bool, fn(&ScheduleData) -> bool>).unwrap();
    assert_eq!(data.matches("\"color\"=\"orange\"").count(), 2);
    assert_eq!(data.matches("\"style\"=\"dashed\"").count(), 0);
    assert_eq!(data.matches(" -> ").count(), 2);
}

#[test]
fn a_context_holds_the_answers_of_the_predicate() {
    let wanted = Some(|s: &SystemInfo| s.name == "count");
    let c = debugdump::data_graph::data_graph_dot(&host(), 0, &wanted);
    assert_eq!(c.schedule, 0);
    assert_eq!(c.mask, vec![false, true]);
    let e: EventGraphContext = events_context(&host(), 1, &None::<fn(&SystemInfo) -> bool>);
    assert_eq!(e.schedule, 1);
    assert_eq!(e.mask, vec![true]);
}
