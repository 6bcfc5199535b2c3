use loom_cli::changes::{changes_from, Change, ChangeKind, NodeRecord};

fn node(path: &str, x: f32, components: &str) -> NodeRecord {
    let placement = [x, 0.0, 0.0, 0.0, 0.0, 0.0, 1.0, 1.0, 1.0].iter().map(|v| v.to_bits()).collect();
    NodeRecord { path: path.to_owned(), placement, components: components.to_owned() }
}

fn change(path: &str, kind: ChangeKind) -> Change {
    Change { path: path.to_owned(), kind }
}

#[test]
fn each_kind_has_its_label() {
    assert_eq!(ChangeKind::Added.label(), "added");
    assert_eq!(ChangeKind::Removed.label(), "removed");
    assert_eq!(ChangeKind::Moved.label(), "moved");
    assert_eq!(ChangeKind::Edited.label(), "edited");
    assert_eq!(ChangeKind::MovedAndEdited.label(), "moved + edited");
}

#[test]
fn a_moved_node_is_reported_moved() {
    let before = vec![node("Room", 0.0, "{}"), node("Room/Desk", 0.0, "{}")];
    let after = vec![node("Room", 0.0, "{}"), node("Room/Desk", 5.0, "{}")];
    assert_eq!(changes_from(&after, &before), vec![change("Room/Desk", ChangeKind::Moved)]);
}

#[test]
fn every_kind_of_change_is_reported_in_order() {
    let before = vec![
        node("A", 0.0, "{}"),
        node("B", 0.0, "{}"),
        node("C", 0.0, "{}"),
        node("Gone", 0.0, "{}"),
    ];
    let after = vec![
        node("New", 0.0, "{}"),
        node("A", 1.0, "{}"),
        node("B", 0.0, "{\"Light\":{}}"),
        node("C", 2.0, "{\"Light\":{}}"),
    ];
    assert_eq!(
        changes_from(&after, &before),
        vec![
            change("New", ChangeKind::Added),
            change("A", ChangeKind::Moved),
            change("B", ChangeKind::Edited),
            change("C", ChangeKind::MovedAndEdited),
            change("Gone", ChangeKind::Removed),
        ]
    );
}

#[test]
fn an_unchanged_scene_has_no_changes() {
    let nodes = vec![node("A", 0.0, "{}"), node("A/B", 3.0, "{\"x\":1}")];
    assert!(changes_from(&nodes, &nodes).is_empty());
    assert!(changes_from(&Vec::new(), &Vec::new()).is_empty());
}

#[test]
fn a_spawned_node_appears_as_added() {
    let before = vec![node("Room", 0.0, "{}")];
    let after = vec![node("Room", 0.0, "{}"), node("Room/Lamp", 0.0, "{}")];
    assert_eq!(changes_from(&after, &before), vec![change("Room/Lamp", ChangeKind::Added)]);
    assert_eq!(changes_from(&before, &after), vec![change("Room/Lamp", ChangeKind::Removed)]);
}
