use combustion::builder::SystemBuilder;
use combustion::error::SystemError;
use combustion::system::SystemConstructor;

/// A system that records its name and priority with the planner.
struct Recorder {
    name: &'static str,
    fails: bool,
}

impl SystemConstructor for Recorder {
    type Planner = Vec<(String, i32)>;

    fn instantiate(&mut self, planner: &mut Vec<(String, i32)>, priority: i32) -> Result<(), SystemError> {
        if self.fails {
            return Err(SystemError::Failed(self.name.to_string()));
        }
        planner.push((self.name.to_string(), priority));
        Ok(())
    }
}

fn dummy(name: &'static str) -> Recorder {
    Recorder { name, fails: false }
}

fn failing(name: &'static str) -> Recorder {
    Recorder { name, fails: true }
}

fn deps(names: &[&str]) -> Vec<String> {
    names.iter().map(|s| s.to_string()).collect()
}

fn priority_of(planner: &Vec<(String, i32)>, name: &str) -> i32 {
    let found: Vec<i32> = planner.iter().filter(|(n, _)| n == name).map(|(_, p)| *p).collect();
    assert_eq!(found.len(), 1);
    found[0]
}

#[test]
fn basic() {
    let mut builder = SystemBuilder::new();

    builder.add_system("test", dummy("test")).unwrap();
    builder.add_system("testing", dummy("testing")).unwrap();

    builder.add_system_with_deps("test1", dummy("test1"), deps(&["testing"])).unwrap();
    builder.add_system_with_deps("test4", dummy("test4"), deps(&["test"])).unwrap();
    builder.add_system_with_deps("test3", dummy("test3"), deps(&["test2"])).unwrap();
    builder.add_system_with_deps("test5", dummy("test5"), deps(&["test2"])).unwrap();
    builder.add_system_with_deps("test2", dummy("test2"), deps(&["test4"])).unwrap();
    builder.add_system_with_deps("test6", dummy("test6"), deps(&["test2"])).unwrap();
    builder.add_system_with_deps("test7", dummy("test7"), deps(&["test6"])).unwrap();
    builder.add_system_with_deps("test8", dummy("test8"), deps(&["test7"])).unwrap();
    builder.add_system_with_deps("test9", dummy("test9"), deps(&["test8"])).unwrap();

    let mut planner = Vec::new();

    builder.build(&mut planner).unwrap();
}

#[test]
#[should_panic]
fn test_cycle() {
    let mut builder = SystemBuilder::new();

    builder.add_system_with_deps("test1", dummy("test1"), deps(&["test4"])).unwrap();
    builder.add_system_with_deps("test4", dummy("test4"), deps(&["test1"])).unwrap();
    builder.add_system_with_deps("test2", dummy("test2"), deps(&["test2"])).unwrap();

    let mut planner = Vec::new();

    builder.build(&mut planner).unwrap();
}

#[test]
fn basic_delivers_every_system_once() {
    let mut builder = SystemBuilder::new();
    builder.add_system("test", dummy("test")).unwrap();
    builder.add_system("testing", dummy("testing")).unwrap();
    builder.add_system_with_deps("test1", dummy("test1"), deps(&["testing"])).unwrap();
    builder.add_system_with_deps("test4", dummy("test4"), deps(&["test"])).unwrap();
    builder.add_system_with_deps("test3", dummy("test3"), deps(&["test2"])).unwrap();
    builder.add_system_with_deps("test5", dummy("test5"), deps(&["test2"])).unwrap();
    builder.add_system_with_deps("test2", dummy("test2"), deps(&["test4"])).unwrap();
    builder.add_system_with_deps("test6", dummy("test6"), deps(&["test2"])).unwrap();
    builder.add_system_with_deps("test7", dummy("test7"), deps(&["test6"])).unwrap();
    builder.add_system_with_deps("test8", dummy("test8"), deps(&["test7"])).unwrap();
    builder.add_system_with_deps("test9", dummy("test9"), deps(&["test8"])).unwrap();
    assert_eq!(builder.node_count(), 12);

    let mut planner = Vec::new();
    assert_eq!(builder.build(&mut planner), Ok(()));

    let names: Vec<&str> = planner.iter().map(|(n, _)| n.as_str()).collect();
    assert_eq!(
        names,
        vec!["test", "test4", "test2", "test3", "test5", "test6", "test7", "test8", "test9", "testing", "test1"]
    );
    for (i, (_, priority)) in planner.iter().enumerate() {
        assert_eq!(*priority, i32::MAX - i as i32);
    }
}

#[test]
fn new_builder_holds_the_root_alone() {
    let builder: SystemBuilder<Recorder> = SystemBuilder::new();
    assert_eq!(builder.node_count(), 1);
    assert_eq!(builder.linearize(), vec![]);
    let mut planner = Vec::new();
    assert_eq!(builder.build(&mut planner), Ok(()));
    assert!(planner.is_empty());
}

#[test]
fn nodes_are_numbered_in_order_of_first_mention() {
    let mut builder = SystemBuilder::new();
    assert_eq!(builder.add_system("a", dummy("a")), Ok(1));
    assert_eq!(builder.add_system_with_deps("b", dummy("b"), deps(&["c", "a"])), Ok(2));
    assert_eq!(builder.add_system("c", dummy("c")), Ok(3));
    assert_eq!(builder.add_system("a", dummy("a")), Ok(1));
    assert_eq!(builder.node_count(), 4);
}

#[test]
fn independent_pairs_follow_registration_order() {
    let mut builder = SystemBuilder::new();
    builder.add_system("A", dummy("A")).unwrap();
    builder.add_system("B", dummy("B")).unwrap();
    builder.add_system_with_deps("C", dummy("C"), deps(&["B"])).unwrap();
    builder.add_system_with_deps("D", dummy("D"), deps(&["A"])).unwrap();

    assert_eq!(
        builder.linearize(),
        vec![(1, i32::MAX), (4, i32::MAX - 1), (2, i32::MAX - 2), (3, i32::MAX - 3)]
    );

    let mut planner = Vec::new();
    assert_eq!(builder.build(&mut planner), Ok(()));
    assert_eq!(planner.len(), 4);
    assert!(priority_of(&planner, "B") > priority_of(&planner, "C"));
    assert!(priority_of(&planner, "A") > priority_of(&planner, "D"));
    assert_eq!(
        planner,
        vec![
            ("A".to_string(), 2147483647),
            ("D".to_string(), 2147483646),
            ("B".to_string(), 2147483645),
            ("C".to_string(), 2147483644),
        ]
    );
}

#[test]
fn mutual_dependency_is_refused_and_the_first_call_stands() {
    let mut builder = SystemBuilder::new();
    assert_eq!(builder.add_system_with_deps("P", dummy("P"), deps(&["Q"])), Ok(1));
    let after_first = builder.linearize();
    assert_eq!(after_first, vec![(1, i32::MAX), (2, i32::MAX - 1)]);

    assert_eq!(builder.add_system_with_deps("Q", dummy("Q"), deps(&["P"])), Err(SystemError::WouldCycle));
    // No edge was added by the refused call.
    assert_eq!(builder.linearize(), after_first);
    assert!(builder.connected(2, 1));
    assert!(!builder.connected(1, 2));

    let mut planner = Vec::new();
    assert_eq!(builder.build(&mut planner), Ok(()));
    assert_eq!(planner, vec![("P".to_string(), i32::MAX), ("Q".to_string(), i32::MAX - 1)]);
}

#[test]
fn unresolved_placeholder_fails_with_its_name() {
    let mut builder = SystemBuilder::new();
    builder.add_system_with_deps("P", dummy("P"), deps(&["Q"])).unwrap();
    let mut planner = Vec::new();
    assert_eq!(
        builder.build(&mut planner),
        Err(SystemError::MissingDependentSystem("Q".to_string()))
    );
    // P came first and stays delivered.
    assert_eq!(planner, vec![("P".to_string(), i32::MAX)]);
}

#[test]
fn later_registration_replaces_the_placeholder() {
    let mut builder = SystemBuilder::new();
    assert_eq!(builder.add_system_with_deps("B", dummy("B"), deps(&["A"])), Ok(1));
    assert_eq!(builder.add_system("A", dummy("A")), Ok(2));
    let mut planner = Vec::new();
    assert_eq!(builder.build(&mut planner), Ok(()));
    assert_eq!(priority_of(&planner, "A"), i32::MAX - 1);
    assert_eq!(priority_of(&planner, "B"), i32::MAX);
}

#[test]
fn self_dependency_is_refused() {
    let mut builder = SystemBuilder::new();
    assert_eq!(builder.add_system_with_deps("X", dummy("X"), deps(&["X"])), Err(SystemError::WouldCycle));
    // The registration itself stays.
    assert_eq!(builder.node_count(), 2);
    assert_eq!(builder.linearize(), vec![(1, i32::MAX)]);
}

#[test]
fn longer_cycle_is_refused() {
    let mut builder = SystemBuilder::new();
    builder.add_system_with_deps("b", dummy("b"), deps(&["a"])).unwrap();
    builder.add_system_with_deps("c", dummy("c"), deps(&["b"])).unwrap();
    assert_eq!(builder.add_system_with_deps("a", dummy("a"), deps(&["c"])), Err(SystemError::WouldCycle));
    assert!(builder.connected(2, 3));
    assert!(!builder.connected(3, 2));
}

#[test]
fn refusal_keeps_the_dependencies_before_it() {
    let mut builder = SystemBuilder::new();
    builder.add_system_with_deps("x", dummy("x"), deps(&["y"])).unwrap();
    // "z" is new and gets its placeholder and edge; "x" closes a cycle.
    assert_eq!(
        builder.add_system_with_deps("y", dummy("y"), deps(&["z", "x", "w"])),
        Err(SystemError::WouldCycle)
    );
    assert_eq!(builder.node_count(), 4);
    assert!(builder.connected(3, 2));
    assert!(!builder.connected(1, 2));
}

#[test]
fn dependencies_of_two_registrations_accumulate() {
    let mut builder = SystemBuilder::new();
    builder.add_system("a", dummy("a")).unwrap();
    builder.add_system("b", dummy("b")).unwrap();
    assert_eq!(builder.add_system_with_deps("c", dummy("c"), deps(&["a"])), Ok(3));
    assert_eq!(builder.add_system_with_deps("c", dummy("c"), deps(&["b"])), Ok(3));
    assert!(builder.connected(1, 3));
    assert!(builder.connected(2, 3));
    assert_eq!(builder.node_count(), 4);
}

#[test]
fn connected_holds_of_a_node_and_itself() {
    let mut builder = SystemBuilder::new();
    builder.add_system("a", dummy("a")).unwrap();
    assert!(builder.connected(1, 1));
    assert!(builder.connected(0, 1));
    assert!(!builder.connected(1, 0));
    assert!(!builder.connected(1, 7));
}

#[test]
fn placeholder_is_created_once() {
    let mut builder: SystemBuilder<Recorder> = SystemBuilder::new();
    assert_eq!(builder.get_or_create_placeholder("a".to_string()), 1);
    assert_eq!(builder.get_or_create_placeholder("b".to_string()), 2);
    assert_eq!(builder.get_or_create_placeholder("a".to_string()), 1);
    assert_eq!(builder.node_count(), 3);
}

#[test]
fn upsert_reports_whether_the_name_was_known() {
    let mut builder = SystemBuilder::new();
    assert_eq!(builder.upsert_payload("a", dummy("a")), Ok((1, false)));
    assert_eq!(builder.upsert_payload("a", dummy("a2")), Ok((1, true)));
    assert_eq!(builder.get_or_create_placeholder("b".to_string()), 2);
    assert_eq!(builder.upsert_payload("b", dummy("b")), Ok((2, true)));
    let mut planner = Vec::new();
    assert_eq!(builder.build(&mut planner), Ok(()));
    assert_eq!(planner, vec![("a2".to_string(), i32::MAX), ("b".to_string(), i32::MAX - 1)]);
}

#[test]
fn a_failing_system_ends_the_build() {
    let mut builder = SystemBuilder::new();
    builder.add_system("a", dummy("a")).unwrap();
    builder.add_system("b", failing("b")).unwrap();
    builder.add_system("c", dummy("c")).unwrap();
    let mut planner = Vec::new();
    assert_eq!(builder.build(&mut planner), Err(SystemError::Failed("b".to_string())));
    assert_eq!(planner, vec![("a".to_string(), i32::MAX)]);
}

#[test]
fn a_dependent_is_visited_right_after_its_first_dependency() {
    // "c" depends on both "a" and "b", and is reached through "a" before "b"
    // has had its turn.
    let mut builder = SystemBuilder::new();
    builder.add_system("a", dummy("a")).unwrap();
    builder.add_system("b", dummy("b")).unwrap();
    builder.add_system_with_deps("c", dummy("c"), deps(&["a", "b"])).unwrap();
    assert_eq!(builder.linearize(), vec![(1, i32::MAX), (3, i32::MAX - 1), (2, i32::MAX - 2)]);
}

#[test]
fn parallel_edges_do_not_repeat_a_system() {
    let mut builder = SystemBuilder::new();
    builder.add_system("a", dummy("a")).unwrap();
    builder.add_system_with_deps("b", dummy("b"), deps(&["a", "a"])).unwrap();
    assert_eq!(builder.linearize(), vec![(1, i32::MAX), (2, i32::MAX - 1)]);
}

#[test]
fn chain_is_delivered_from_its_head() {
    let mut builder = SystemBuilder::new();
    builder.add_system("a", dummy("a")).unwrap();
    builder.add_system_with_deps("b", dummy("b"), deps(&["a"])).unwrap();
    builder.add_system_with_deps("c", dummy("c"), deps(&["b"])).unwrap();
    let mut planner = Vec::new();
    assert_eq!(builder.build(&mut planner), Ok(()));
    assert!(priority_of(&planner, "a") > priority_of(&planner, "b"));
    assert!(priority_of(&planner, "b") > priority_of(&planner, "c"));
}

#[test]
fn single_dependencies_named_after_their_system_come_first() {
    let mut builder = SystemBuilder::new();
    builder.add_system("a", dummy("a")).unwrap();
    builder.add_system_with_deps("b", dummy("b"), deps(&["a"])).unwrap();
    builder.add_system_with_deps("c", dummy("c"), deps(&["a"])).unwrap();
    builder.add_system_with_deps("d", dummy("d"), deps(&["b"])).unwrap();
    builder.add_system("e", dummy("e")).unwrap();
    builder.add_system_with_deps("f", dummy("f"), deps(&["e", "e"])).unwrap();
    let mut planner = Vec::new();
    assert_eq!(builder.build(&mut planner), Ok(()));
    let names: Vec<&str> = planner.iter().map(|(n, _)| n.as_str()).collect();
    assert_eq!(names, vec!["a", "b", "d", "c", "e", "f"]);
    assert!(priority_of(&planner, "a") > priority_of(&planner, "b"));
    assert!(priority_of(&planner, "a") > priority_of(&planner, "c"));
    assert!(priority_of(&planner, "b") > priority_of(&planner, "d"));
    assert!(priority_of(&planner, "a") > priority_of(&planner, "d"));
    assert!(priority_of(&planner, "e") > priority_of(&planner, "f"));
}

#[test]
fn a_system_named_before_its_dependency_is_delivered_before_it() {
    let mut builder = SystemBuilder::new();
    builder.add_system_with_deps("late", dummy("late"), deps(&["early"])).unwrap();
    builder.add_system("early", dummy("early")).unwrap();
    let mut planner = Vec::new();
    assert_eq!(builder.build(&mut planner), Ok(()));
    assert_eq!(planner, vec![("late".to_string(), i32::MAX), ("early".to_string(), i32::MAX - 1)]);
}

#[test]
fn every_node_is_reached_from_the_root() {
    let mut builder = SystemBuilder::new();
    builder.add_system_with_deps("a", dummy("a"), deps(&["b", "c"])).unwrap();
    builder.add_system("d", dummy("d")).unwrap();
    for node in 1..builder.node_count() {
        assert!(builder.connected(0, node));
        assert!(!builder.connected(node, 0));
    }
}
