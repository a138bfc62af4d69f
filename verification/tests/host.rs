use bevy_ecs::schedule::{IntoSystemConfigs, Schedule};
use bevy_ecs::system::{Res, ResMut, Resource};
use bevy_ecs::world::World;
use debugdump::data_graph::Settings;
use debugdump::data_graph_dot;
use bevy_ecs::schedule::Schedules;
use debugdump::host::{
    assemble, assemble_all, capture_all, capture_host, capture_outline, capture_schedule,
    capture_some, keep_named, signature_of, sort_by_label, sorted_numbers,
    RawSchedule, RawSet, RawSystem,
};
use debugdump::model::{GraphError, NodeRef, ScheduleData, SystemInfo};
use debugdump::picture::Style;
use debugdump::schedule_graph::render_schedule;

struct Score(u32);

impl Resource for Score {}

fn first() {}

fn second() {}

fn third() {}

fn reads_score(score: Res<Score>) {
    let _ = score.0;
}

fn writes_score(mut score: ResMut<Score>) {
    score.0 += 1;
}

fn build(schedule: &mut Schedule, world: &mut World) {
    let label = schedule.label();
    schedule.graph_mut().initialize(world);
    let _ = schedule.graph_mut().build_schedule(
        world.components(),
        label,
        &std::collections::BTreeSet::new(),
    );
}

fn raw(systems: &[(usize, &str)], sets: &[(usize, &str)]) -> RawSchedule {
    RawSchedule {
        label: "Raw".to_string(),
        systems: systems
            .iter()
            .map(|(i, n)| RawSystem {
                id: NodeRef::System(*i),
                name: n.to_string(),
                reads: vec![*i, 1],
                writes: vec![],
            })
            .collect(),
        sets: sets
            .iter()
            .map(|(i, n)| RawSet {
                id: NodeRef::SystemSet(*i),
                name: n.to_string(),
                system_type: false,
            })
            .collect(),
        hierarchy: vec![],
        dependency: vec![],
        conflicts: vec![],
    }
}

#[test]
fn a_chain_of_systems_is_read_from_the_scheduler() {
    let mut world = World::new();
    let mut schedule = Schedule::default();
    schedule.add_systems((first, second, third).chain());
    build(&mut schedule, &mut world);
    let data = capture_schedule(&schedule).unwrap();
    println!("{:?}", data);
    assert_eq!(data.label, "DefaultSchedule");
    assert_eq!(data.systems.len(), 3);
    assert!(data.systems[0].name.ends_with("first"));
    assert!(data.systems[1].name.ends_with("second"));
    assert!(data.systems[2].name.ends_with("third"));
    assert_eq!(
        data.dependency,
        vec![
            (NodeRef::System(0), NodeRef::System(1)),
            (NodeRef::System(1), NodeRef::System(2)),
        ]
    );
    // the scheduler keeps every system in the set of its own type; such a
    // set is left out
    assert!(data.sets.is_empty());
    assert!(data.hierarchy.is_empty());
    assert!(data.ambiguities.is_empty());
    let dot = render_schedule(&data, &vec![], true, Style::default()).unwrap();
    println!("{}", dot);
    assert_eq!(dot.matches("subgraph ").count(), 0);
    assert_eq!(dot.matches("\"shape\"=\"box\"").count(), 3);
    assert_eq!(dot.matches(" -> ").count(), 2);
}

#[test]
fn accesses_and_conflicts_are_read_from_the_scheduler() {
    let mut world = World::new();
    let mut schedule = Schedule::default();
    schedule.add_systems((reads_score, writes_score));
    build(&mut schedule, &mut world);
    let data = capture_schedule(&schedule).unwrap();
    println!("{:?}", data);
    assert_eq!(data.systems.len(), 2);
    assert_eq!(data.systems[0].reads.len(), 1);
    assert!(data.systems[0].writes.is_empty());
    assert_eq!(data.systems[1].writes, data.systems[0].reads);
    assert!(data.systems[1].reads.is_empty());
    assert_eq!(data.ambiguities.len(), 1);
    let pair = data.ambiguities[0];
    assert_eq!((pair.0.min(pair.1), pair.0.max(pair.1)), (0, 1));
    let host = capture_host(&world, vec![data]);
    let score = host.schedules[0].systems[0].reads[0];
    assert!(host.resources[score].ends_with("Score"));
    assert!(host.render_graph.is_none());
    let settings: Settings<fn(&SystemInfo) -> bool, fn(&ScheduleData) -> bool> = Settings::new();
    let dot = data_graph_dot(&host, &settings).unwrap();
    println!("{}", dot);
    assert_eq!(dot.matches("\"shape\"=\"ellipse\"").count(), 1);
    assert_eq!(dot.matches("\"color\"=\"blue\"").count(), 1);
    assert_eq!(dot.matches("\"color\"=\"orange\"").count(), 1);
}

#[test]
fn an_unbuilt_schedule_holds_no_conflicts() {
    let mut schedule = Schedule::default();
    schedule.add_systems((reads_score, writes_score));
    let data = capture_schedule(&schedule).unwrap();
    assert_eq!(data.systems.len(), 2);
    assert!(data.ambiguities.is_empty());
}

#[test]
fn numbers_are_put_in_rising_order() {
    let refs = vec![
        NodeRef::System(7),
        NodeRef::SystemSet(5),
        NodeRef::System(2),
        NodeRef::System(7),
        NodeRef::SystemSet(1),
        NodeRef::System(0),
    ];
    assert_eq!(sorted_numbers(&refs, true), vec![0, 2, 7]);
    assert_eq!(sorted_numbers(&refs, false), vec![1, 5]);
    assert_eq!(sorted_numbers(&vec![NodeRef::System(3)], false), vec![]);
    assert_eq!(sorted_numbers(&vec![], true), vec![]);
}

#[test]
fn raw_references_become_positions() {
    let mut r = raw(&[(7, "g"), (2, "b"), (7, "again"), (0, "a")], &[(5, "t"), (1, "s")]);
    r.systems[1].writes = vec![9];
    r.hierarchy = vec![
        (NodeRef::SystemSet(5), NodeRef::System(7)),
        (NodeRef::SystemSet(1), NodeRef::SystemSet(5)),
    ];
    r.dependency = vec![(NodeRef::System(2), NodeRef::SystemSet(1))];
    r.conflicts = vec![(NodeRef::System(7), NodeRef::System(0))];
    let d = assemble(&r).unwrap();
    assert_eq!(d.label, "Raw");
    let names: Vec<&str> = d.systems.iter().map(|s| s.name.as_str()).collect();
    assert_eq!(names, vec!["a", "b", "g"]);
    let sets: Vec<&str> = d.sets.iter().map(|s| s.name.as_str()).collect();
    assert_eq!(sets, vec!["s", "t"]);
    assert_eq!(d.hierarchy, vec![(1, NodeRef::System(2)), (0, NodeRef::SystemSet(1))]);
    assert_eq!(d.dependency, vec![(NodeRef::System(1), NodeRef::SystemSet(0))]);
    assert_eq!(d.ambiguities, vec![(2, 0)]);
    assert_eq!(d.systems[0].reads, vec![0, 1]);
    assert_eq!(d.systems[2].reads, vec![7, 1]);
    assert_eq!(d.systems[1].writes, vec![9]);
    assert!(d.systems[2].writes.is_empty());
}

#[test]
fn pairs_that_name_what_was_not_read_are_problems() {
    let mut r = raw(&[(0, "a")], &[(0, "s")]);
    r.hierarchy = vec![
        (NodeRef::SystemSet(0), NodeRef::System(0)),
        (NodeRef::System(0), NodeRef::System(0)),
    ];
    assert_eq!(assemble(&r).err(), Some(GraphError::DanglingHierarchy(1)));
    r.hierarchy = vec![(NodeRef::SystemSet(0), NodeRef::System(3))];
    assert_eq!(assemble(&r).err(), Some(GraphError::DanglingHierarchy(0)));
    r.hierarchy = vec![];
    r.dependency = vec![(NodeRef::System(0), NodeRef::SystemSet(1))];
    assert_eq!(assemble(&r).err(), Some(GraphError::DanglingDependency(0)));
    r.dependency = vec![];
    r.conflicts = vec![(NodeRef::System(0), NodeRef::SystemSet(0))];
    assert_eq!(assemble(&r).err(), Some(GraphError::DanglingAmbiguity(0)));
}

#[test]
fn schedules_are_put_in_the_order_of_their_labels() {
    let schedule = |label: &str, systems: usize| ScheduleData {
        label: label.to_string(),
        systems: (0..systems)
            .map(|i| SystemInfo { name: format!("s{}", i), reads: vec![], writes: vec![] })
            .collect(),
        sets: vec![],
        hierarchy: vec![],
        dependency: vec![],
        ambiguities: vec![],
    };
    let sorted = sort_by_label(vec![
        schedule("Update", 1),
        schedule("First", 2),
        schedule("Update", 3),
        schedule("", 4),
        schedule("Fix", 5),
    ]);
    let seen: Vec<(&str, usize)> =
        sorted.iter().map(|s| (s.label.as_str(), s.systems.len())).collect();
    assert_eq!(seen, vec![("", 4), ("First", 2), ("Fix", 5), ("Update", 1), ("Update", 3)]);
    assert!(sort_by_label(vec![]).is_empty());
}

#[test]
fn building_twice_changes_nothing() {
    let mut world = World::new();
    let mut schedule = Schedule::default();
    schedule.add_systems((first, reads_score, writes_score).chain());
    schedule.add_systems((second, third));
    build(&mut schedule, &mut world);
    let once = capture_schedule(&schedule).unwrap();
    build(&mut schedule, &mut world);
    let twice = capture_schedule(&schedule).unwrap();
    assert_eq!(once.systems.len(), 5);
    assert_eq!(once.dependency.len(), 2);
    assert_eq!(format!("{:?}", once.systems), format!("{:?}", twice.systems));
    assert_eq!(format!("{:?}", once.sets), format!("{:?}", twice.sets));
    assert_eq!(once.dependency, twice.dependency);
    assert_eq!(once.ambiguities, twice.ambiguities);
    // the scheduler hands out its containment in another order after each
    // build; the same entries give the same picture
    let mut held = once.hierarchy.clone();
    held.sort_by_key(|e| e.0);
    let mut again = twice.hierarchy.clone();
    again.sort_by_key(|e| e.0);
    assert_eq!(held, again);
    let style = Style { transitive_reduction: true, inline_single_member_sets: false };
    assert_eq!(
        render_schedule(&once, &vec![], true, style).unwrap(),
        render_schedule(&twice, &vec![], true, style).unwrap()
    );
}

#[test]
fn every_schedule_of_a_collection_is_read() {
    let mut world = World::new();
    let mut schedules = Schedules::new();
    let mut update = Schedule::new(bevy_app::Update);
    update.add_systems((reads_score, writes_score).chain());
    build(&mut update, &mut world);
    let mut first_schedule = Schedule::new(bevy_app::First);
    first_schedule.add_systems(first);
    build(&mut first_schedule, &mut world);
    schedules.insert(update);
    schedules.insert(first_schedule);
    schedules.insert(Schedule::new(bevy_app::Last));
    let host = capture_all(&world, &schedules).unwrap();
    let labels: Vec<&str> = host.schedules.iter().map(|s| s.label.as_str()).collect();
    assert_eq!(labels, vec!["First", "Last", "Update"]);
    assert_eq!(host.schedules[0].systems.len(), 1);
    assert!(host.schedules[1].systems.is_empty());
    assert_eq!(
        host.schedules[2].dependency,
        vec![(NodeRef::System(0), NodeRef::System(1))]
    );
    assert!(host.resources.iter().any(|r| r.ends_with("Score")));
    assert!(capture_all(&World::new(), &Schedules::new()).unwrap().schedules.is_empty());
}

#[test]
fn everything_that_was_read_is_put_in_order() {
    let mut update = raw(&[(3, "late"), (1, "early")], &[]);
    update.label = "Update".to_string();
    update.dependency = vec![(NodeRef::System(1), NodeRef::System(3))];
    let mut first_raw = raw(&[(0, "only")], &[(4, "s")]);
    first_raw.label = "First".to_string();
    first_raw.hierarchy = vec![(NodeRef::SystemSet(4), NodeRef::System(0))];
    let names = vec!["a".to_string(), "b".to_string()];
    let host = assemble_all(&vec![update.clone(), first_raw.clone()], names.clone()).unwrap();
    assert_eq!(host.resources, names);
    assert!(host.render_graph.is_none());
    let labels: Vec<&str> = host.schedules.iter().map(|s| s.label.as_str()).collect();
    assert_eq!(labels, vec!["First", "Update"]);
    assert_eq!(host.schedules[0].hierarchy, vec![(0, NodeRef::System(0))]);
    let early: Vec<&str> = host.schedules[1].systems.iter().map(|s| s.name.as_str()).collect();
    assert_eq!(early, vec!["early", "late"]);
    assert_eq!(
        host.schedules[1].dependency,
        vec![(NodeRef::System(0), NodeRef::System(1))]
    );
    // the first schedule that cannot be put in order gives the error
    let mut lost = raw(&[(0, "a")], &[]);
    lost.conflicts = vec![(NodeRef::System(0), NodeRef::System(9))];
    let mut worse = raw(&[], &[]);
    worse.dependency = vec![(NodeRef::System(0), NodeRef::System(0))];
    assert_eq!(
        assemble_all(&vec![first_raw.clone(), lost.clone(), worse.clone()], vec![]).err(),
        Some(GraphError::DanglingAmbiguity(0))
    );
    assert_eq!(
        assemble_all(&vec![worse, lost, first_raw], vec![]).err(),
        Some(GraphError::DanglingDependency(0))
    );
    let empty = assemble_all(&vec![], vec![]).unwrap();
    assert!(empty.schedules.is_empty() && empty.resources.is_empty());
}

#[test]
fn an_order_on_a_system_is_an_order_between_systems() {
    let mut world = World::new();
    let mut schedule = Schedule::default();
    schedule.add_systems((first, second.after(first), third.after(second).after(first)));
    build(&mut schedule, &mut world);
    let data = capture_schedule(&schedule).unwrap();
    println!("{:?}", data);
    let mut ordered = data.dependency.clone();
    ordered.sort_by_key(|e| format!("{:?}", e));
    assert_eq!(
        ordered,
        vec![
            (NodeRef::System(0), NodeRef::System(1)),
            (NodeRef::System(0), NodeRef::System(2)),
            (NodeRef::System(1), NodeRef::System(2)),
        ]
    );
    let settings: debugdump::schedule_graph::Settings<fn(&SystemInfo) -> bool> =
        debugdump::schedule_graph::Settings::default();
    let dot = debugdump::schedule_graph::schedule_graph_dot(&data, &settings).unwrap();
    println!("{}", dot);
    // three node statements and two edge statements
    assert_eq!(dot.matches("\"shape\"").count(), 3);
    assert_eq!(dot.matches("\"shape\"=\"box\"").count(), 3);
    assert_eq!(dot.matches(" -> ").count(), 2);
    assert_eq!(dot.matches("subgraph ").count(), 0);
    let first_to_second = dot.lines().any(|l| {
        l.contains("first\" -> ") && l.trim_end().ends_with("second\" [\"style\"=\"solid\"];")
    });
    let second_to_third = dot.lines().any(|l| {
        l.contains("second\" -> ") && l.trim_end().ends_with("third\" [\"style\"=\"solid\"];")
    });
    assert!(first_to_second && second_to_third);
}

#[test]
fn only_the_set_of_one_system_stands_for_it() {
    let mut r = raw(&[(0, "a"), (1, "b"), (2, "c")], &[(0, "of a"), (1, "pair"), (2, "plain")]);
    r.sets[0].system_type = true;
    r.sets[1].system_type = true;
    r.hierarchy = vec![
        (NodeRef::SystemSet(0), NodeRef::System(0)),
        (NodeRef::SystemSet(1), NodeRef::System(1)),
        (NodeRef::SystemSet(1), NodeRef::System(2)),
        (NodeRef::SystemSet(2), NodeRef::System(2)),
        (NodeRef::SystemSet(0), NodeRef::System(0)),
    ];
    r.dependency = vec![
        (NodeRef::SystemSet(0), NodeRef::System(1)),
        (NodeRef::SystemSet(1), NodeRef::SystemSet(0)),
        (NodeRef::SystemSet(2), NodeRef::System(0)),
    ];
    let d = assemble(&r).unwrap();
    // the set of a is left out with its containment; the set of the pair
    // and the plain set stay
    let sets: Vec<&str> = d.sets.iter().map(|s| s.name.as_str()).collect();
    assert_eq!(sets, vec!["pair", "plain"]);
    assert_eq!(
        d.hierarchy,
        vec![(0, NodeRef::System(1)), (0, NodeRef::System(2)), (1, NodeRef::System(2))]
    );
    assert_eq!(
        d.dependency,
        vec![
            (NodeRef::System(0), NodeRef::System(1)),
            (NodeRef::SystemSet(0), NodeRef::System(0)),
            (NodeRef::SystemSet(1), NodeRef::System(0)),
        ]
    );
    // a set of one type inside another set stands there as its system
    r.hierarchy.push((NodeRef::SystemSet(2), NodeRef::SystemSet(0)));
    let d = assemble(&r).unwrap();
    assert_eq!(d.hierarchy.last(), Some(&(1, NodeRef::System(0))));
    // a plain set that holds one system stays
    let mut plain = raw(&[(0, "a")], &[(0, "s")]);
    plain.hierarchy = vec![(NodeRef::SystemSet(0), NodeRef::System(0))];
    let d = assemble(&plain).unwrap();
    assert_eq!(d.sets.len(), 1);
    assert_eq!(d.hierarchy, vec![(0, NodeRef::System(0))]);
}

#[test]
fn an_outline_never_fails() {
    let mut schedule = Schedule::default();
    schedule.add_systems((first, second).chain());
    let outline = capture_outline(&schedule);
    assert_eq!(outline.label, "DefaultSchedule");
    assert_eq!(outline.systems.len(), 2);
    // a schedule that has run has handed its systems to its executor, and
    // what is left of it cannot be put in order
    let mut world = World::new();
    schedule.run(&mut world);
    assert!(capture_schedule(&schedule).is_err());
    let bare = capture_outline(&schedule);
    assert_eq!(bare.label, "DefaultSchedule");
    assert!(bare.systems.is_empty() && bare.sets.is_empty() && bare.hierarchy.is_empty());
    assert!(bare.dependency.is_empty() && bare.ambiguities.is_empty());
}

#[test]
fn schedules_of_one_label_stand_in_the_order_of_what_they_hold() {
    let schedule = |names: &[&str]| ScheduleData {
        label: "Update".to_string(),
        systems: names
            .iter()
            .map(|n| SystemInfo { name: n.to_string(), reads: vec![], writes: vec![] })
            .collect(),
        sets: vec![],
        hierarchy: vec![],
        dependency: vec![],
        ambiguities: vec![],
    };
    let one = vec![schedule(&["b"]), schedule(&["a", "c"]), schedule(&["a"]), schedule(&[])];
    let mut other = one.clone();
    other.reverse();
    let seen = |list: Vec<ScheduleData>| -> Vec<Vec<String>> {
        sort_by_label(list)
            .iter()
            .map(|s| s.systems.iter().map(|x| x.name.clone()).collect())
            .collect()
    };
    let expected: Vec<Vec<String>> = vec![
        vec![],
        vec!["a".to_string()],
        vec!["b".to_string()],
        vec!["a".to_string(), "c".to_string()],
    ];
    assert_eq!(seen(one), expected);
    assert_eq!(seen(other), expected);
    let mut d = schedule(&["ab"]);
    d.systems[0].reads = vec![7];
    d.sets = vec![debugdump::model::SetInfo { name: "s".to_string() }];
    d.hierarchy = vec![(0, NodeRef::System(0))];
    d.dependency = vec![(NodeRef::SystemSet(0), NodeRef::System(0))];
    d.ambiguities = vec![(0, 0)];
    assert_eq!(
        signature_of(&d),
        vec![1, 2, 97, 98, 1, 7, 0, 1, 1, 115, 1, 0, 0, 0, 1, 1, 0, 0, 0, 1, 0, 0]
    );
}

#[test]
fn only_the_wanted_schedules_are_put_in_order() {
    let mut world = World::new();
    let mut schedules = Schedules::new();
    let mut update = Schedule::new(bevy_app::Update);
    update.add_systems((first, second).chain());
    build(&mut update, &mut world);
    // a schedule that has run cannot be put in order any more
    let mut ran = Schedule::new(bevy_app::First);
    ran.add_systems((third, first).chain());
    ran.run(&mut world);
    schedules.insert(update);
    schedules.insert(ran);
    schedules.insert(Schedule::new(bevy_app::Last));
    assert!(capture_all(&world, &schedules).is_err());
    let wanted = vec!["Update".to_string(), "Last".to_string(), "Nowhere".to_string()];
    let host = capture_some(&world, &schedules, &wanted).unwrap();
    let labels: Vec<&str> = host.schedules.iter().map(|s| s.label.as_str()).collect();
    assert_eq!(labels, vec!["Last", "Update"]);
    assert_eq!(host.schedules[1].systems.len(), 2);
    assert!(capture_some(&world, &schedules, &vec![]).unwrap().schedules.is_empty());
    assert!(capture_some(&world, &schedules, &vec!["First".to_string()]).is_err());
    // those that are kept stay in the order in which they were read
    let named = |label: &str| {
        let mut r = raw(&[], &[]);
        r.label = label.to_string();
        r
    };
    let kept = keep_named(vec![named("c"), named("a"), named("b"), named("a")], &vec![
        "a".to_string(),
        "c".to_string(),
    ]);
    let labels: Vec<&str> = kept.iter().map(|r| r.label.as_str()).collect();
    assert_eq!(labels, vec!["c", "a", "a"]);
}
