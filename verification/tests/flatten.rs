use augr::Conflict;
use augr::EventGraph;
use augr::Operation;
use augr::Patch;

fn add_event(device: &str, at: u64, start: u64, tags: Vec<&str>) -> Patch {
    Patch::new(device.to_string(), at, Operation::AddEvent {
        start,
        tags: tags.into_iter().map(|t| t.to_string()).collect(),
    })
}

fn set_start(device: &str, at: u64, event: &Patch, start: u64) -> Patch {
    Patch::new(device.to_string(), at, Operation::SetEventStart {
        event_ref: event.patch_ref().clone_ref(),
        start,
    })
}

fn add_tags(device: &str, at: u64, event: &Patch, tags: Vec<&str>) -> Patch {
    Patch::new(device.to_string(), at, Operation::AddTags {
        event_ref: event.patch_ref().clone_ref(),
        tags: tags.into_iter().map(|t| t.to_string()).collect(),
    })
}

#[test]
fn empty_graph_flattens_to_an_empty_timesheet() {
    let g = EventGraph::new();
    let t = g.flatten().expect("no conflicts");
    assert_eq!(t.events.len(), 0);
}

#[test]
fn flatten_is_deterministic_in_arrival_order() {
    let e1 = add_event("a", 1, 300, vec!["late"]);
    let e2 = add_event("a", 2, 100, vec!["early"]);
    let e3 = add_event("b", 3, 200, vec!["middle"]);

    let mut g1 = EventGraph::new();
    g1.add_patch(e1.clone_patch());
    g1.add_patch(e2.clone_patch());
    g1.add_patch(e3.clone_patch());

    let mut g2 = EventGraph::new();
    g2.add_patch(e3);
    g2.add_patch(e1);
    g2.add_patch(e2);

    let t1 = g1.flatten().expect("no conflicts");
    let t2 = g2.flatten().expect("no conflicts");
    assert_eq!(format!("{:?}", t1.events), format!("{:?}", t2.events));
    assert_eq!(t1.events.len(), 3);
}

#[test]
fn timesheet_is_ordered_by_start_with_ends_filled() {
    let e1 = add_event("a", 1, 300, vec!["late"]);
    let e2 = add_event("a", 2, 100, vec!["early"]);
    let mut g = EventGraph::new();
    g.add_patch(e1);
    g.add_patch(e2);
    let t = g.flatten().expect("no conflicts");
    assert_eq!(t.events.len(), 2);
    assert_eq!(t.events[0].start, 100);
    assert_eq!(t.events[0].end, Some(300));
    assert_eq!(t.events[1].start, 300);
    assert_eq!(t.events[1].end, None);
    assert_eq!(t.events[0].tags, vec!["early".to_string()]);
}

#[test]
fn edits_from_one_device_apply_in_clock_order() {
    let e1 = add_event("a", 1, 100, vec!["work"]);
    let fix1 = set_start("a", 2, &e1, 150);
    let fix2 = set_start("a", 3, &e1, 120);
    let mut g = EventGraph::new();
    g.add_patch(e1);
    g.add_patch(fix1);
    g.add_patch(fix2);
    let t = g.flatten().expect("no conflicts");
    assert_eq!(t.events.len(), 1);
    assert_eq!(t.events[0].start, 120);
}

#[test]
fn concurrent_start_edits_conflict() {
    // Device a creates the event; then both devices move its start without
    // seeing each other's edit. No winner may be chosen.
    let e1 = add_event("a", 1, 32400, vec![]);
    let edit_a = set_start("a", 2, &e1, 34200);
    let edit_b = set_start("b", 2, &e1, 36000);
    let mut g = EventGraph::new();
    g.add_patch(e1.clone_patch());
    g.add_patch(edit_a.clone_patch());
    g.add_patch(edit_b.clone_patch());
    let conflicts = g.flatten().expect_err("must conflict");
    assert_eq!(conflicts.len(), 1);
    match &conflicts[0] {
        Conflict::ConcurrentStarts { event_ref, patches } => {
            assert_eq!(event_ref.as_bytes(), e1.patch_ref().as_bytes());
            assert_eq!(patches.len(), 2);
            let named: Vec<&Vec<u8>> = patches.iter().map(|p| p.as_bytes()).collect();
            assert!(named.contains(&edit_a.patch_ref().as_bytes()));
            assert!(named.contains(&edit_b.patch_ref().as_bytes()));
        },
        other => panic!("wrong conflict: {:?}", other),
    }
}

#[test]
fn edit_of_an_unknown_event_is_reported() {
    let ghost_event = add_event("a", 1, 100, vec![]);
    let edit = set_start("b", 2, &ghost_event, 200);
    let mut g = EventGraph::new();
    g.add_patch(edit.clone_patch());
    let conflicts = g.flatten().expect_err("must conflict");
    assert_eq!(conflicts.len(), 1);
    match &conflicts[0] {
        Conflict::UnknownEvent { event_ref, patch } => {
            assert_eq!(event_ref.as_bytes(), ghost_event.patch_ref().as_bytes());
            assert_eq!(patch.as_bytes(), edit.patch_ref().as_bytes());
        },
        other => panic!("wrong conflict: {:?}", other),
    }
}

#[test]
fn tags_merge_without_duplicates() {
    let e1 = add_event("a", 1, 100, vec!["work"]);
    let t1 = add_tags("a", 2, &e1, vec!["deep", "work"]);
    let t2 = add_tags("b", 3, &e1, vec!["focus", "deep"]);
    let mut g = EventGraph::new();
    g.add_patch(e1);
    g.add_patch(t1);
    g.add_patch(t2);
    let t = g.flatten().expect("no conflicts");
    assert_eq!(t.events.len(), 1);
    let tags = &t.events[0].tags;
    assert_eq!(tags.len(), 3);
    assert!(tags.contains(&"work".to_string()));
    assert!(tags.contains(&"deep".to_string()));
    assert!(tags.contains(&"focus".to_string()));
}

#[test]
fn equal_start_times_break_ties_by_reference() {
    let e1 = add_event("a", 1, 100, vec!["one"]);
    let e2 = add_event("b", 2, 100, vec!["two"]);
    let mut g1 = EventGraph::new();
    g1.add_patch(e1.clone_patch());
    g1.add_patch(e2.clone_patch());
    let mut g2 = EventGraph::new();
    g2.add_patch(e2);
    g2.add_patch(e1);
    let t1 = g1.flatten().expect("no conflicts");
    let t2 = g2.flatten().expect("no conflicts");
    assert_eq!(format!("{:?}", t1.events), format!("{:?}", t2.events));
    assert!(t1.events[0].event_ref.as_bytes() < t1.events[1].event_ref.as_bytes());
}
