use loom_cli::selection::{deletion_order, focused, reselect, select, step_selection, subtree_order};

fn paths(list: &[&str]) -> Vec<String> {
    list.iter().map(|p| p.to_string()).collect()
}

#[test]
fn one_selected_node_is_the_focus() {
    assert_eq!(focused(&paths(&["Root/Lamp"])), Some("Root/Lamp".to_string()));
    assert_eq!(focused(&paths(&[])), None);
    assert_eq!(focused(&paths(&["Root/Lamp", "Root/Chair"])), None);
}

#[test]
fn a_click_replaces_and_an_extended_click_toggles() {
    let mut selected = paths(&["Root/Lamp", "Root/Chair"]);
    select(&mut selected, &"Root/Table".to_string(), false);
    assert_eq!(selected, paths(&["Root/Table"]));
    select(&mut selected, &"Root/Lamp".to_string(), true);
    assert_eq!(selected, paths(&["Root/Table", "Root/Lamp"]));
    select(&mut selected, &"Root/Table".to_string(), true);
    assert_eq!(selected, paths(&["Root/Lamp"]));
}

#[test]
fn tab_steps_through_the_rows_and_wraps() {
    let rows = paths(&["Root", "Root/Lamp", "Root/Chair"]);
    assert_eq!(step_selection(&rows, &Some("Root/Lamp".to_string()), true), Some(2));
    assert_eq!(step_selection(&rows, &Some("Root/Chair".to_string()), true), Some(0));
    assert_eq!(step_selection(&rows, &Some("Root".to_string()), false), Some(2));
    assert_eq!(step_selection(&rows, &None, true), Some(1));
    assert_eq!(step_selection(&rows, &Some("Gone".to_string()), false), Some(2));
    assert_eq!(step_selection(&paths(&[]), &None, true), None);
}

#[test]
fn tab_then_shift_tab_comes_back() {
    let rows = paths(&["Root", "Root/Lamp", "Root/Chair"]);
    let there = step_selection(&rows, &Some("Root/Chair".to_string()), true).unwrap();
    let back = step_selection(&rows, &Some(rows[there].clone()), false).unwrap();
    assert_eq!(rows[back], "Root/Chair");
}

#[test]
fn the_selection_follows_a_move_that_landed() {
    let scene = paths(&["Root", "Root/Light", "Root/Light/Bulb"]);
    let mut selected = paths(&["Root/Lamp", "Root/Lamp/Bulb", "Root/Lampshade"]);
    reselect(&mut selected, &scene, "Root/Lamp", "Root/Light");
    assert_eq!(selected, paths(&["Root/Light", "Root/Light/Bulb", "Root/Lampshade"]));
}

#[test]
fn the_selection_stays_when_a_move_did_not_land() {
    let scene = paths(&["Root", "Root/Lamp"]);
    let mut selected = paths(&["Root/Lamp"]);
    reselect(&mut selected, &scene, "Root/Lamp", "Root/Light");
    assert_eq!(selected, paths(&["Root/Lamp"]));
}

#[test]
fn a_subtree_is_listed_shallowest_first() {
    let scene = paths(&["Root", "Root/Rig/Arm/Hand", "Root/Rig", "Root/Rigging", "Root/Rig/Leg", "Root/Rig/Arm"]);
    assert_eq!(subtree_order(&scene, "Root/Rig"), vec![2, 4, 5, 1]);
    assert_eq!(subtree_order(&scene, "Nowhere"), Vec::<usize>::new());
}

#[test]
fn a_delete_removes_children_before_parents() {
    let scene = paths(&["Root", "Root/Rig", "Root/Rig/Arm", "Root/Rig/Arm/Hand", "Root/Rigging", "Root/Lamp"]);
    let order = deletion_order(&paths(&["Root/Rig", "Root/Lamp"]), &scene);
    assert_eq!(order, paths(&["Root/Rig/Arm/Hand", "Root/Rig/Arm", "Root/Rig", "Root/Lamp"]));
}

#[test]
fn a_node_selected_twice_is_deleted_once() {
    let scene = paths(&["Root", "Root/Lamp"]);
    let order = deletion_order(&paths(&["Root/Lamp", "Root/Lamp"]), &scene);
    assert_eq!(order, paths(&["Root/Lamp"]));
}

#[test]
fn a_delete_of_nothing_known_removes_nothing() {
    let scene = paths(&["Root", "Root/Lamp"]);
    assert_eq!(deletion_order(&paths(&["Gone"]), &scene), Vec::<String>::new());
    assert_eq!(deletion_order(&paths(&[]), &scene), Vec::<String>::new());
}
