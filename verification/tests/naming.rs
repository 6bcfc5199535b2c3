use loom_cli::naming::{child_name, free_name, relocate, rename_target, reparent_target, respawn_plan, split_parent};

fn paths(list: &[&str]) -> Vec<String> {
    list.iter().map(|p| p.to_string()).collect()
}

#[test]
fn a_free_name_is_kept_as_it_is() {
    let scene = paths(&["Root", "Root/Lamp"]);
    assert_eq!(free_name(&scene, "Root", "Chair"), "Chair");
}

#[test]
fn a_taken_name_becomes_a_copy_then_numbered_copies() {
    let scene = paths(&["Root", "Root/Lamp"]);
    assert_eq!(free_name(&scene, "Root", "Lamp"), "LampCopy");
    let scene = paths(&["Root", "Root/Lamp", "Root/LampCopy"]);
    assert_eq!(free_name(&scene, "Root", "Lamp"), "LampCopy2");
    let scene = paths(&["Root", "Root/Lamp", "Root/LampCopy", "Root/LampCopy2"]);
    assert_eq!(free_name(&scene, "Root", "Lamp"), "LampCopy3");
}

#[test]
fn a_free_name_at_the_top_level_has_no_parent_prefix() {
    let scene = paths(&["Root", "Root/Lamp"]);
    assert_eq!(free_name(&scene, "", "Root"), "RootCopy");
    assert_eq!(free_name(&scene, "", "Lamp"), "Lamp");
}

#[test]
fn a_new_child_is_node_then_numbered_from_two() {
    let scene = paths(&["Root"]);
    assert_eq!(child_name(&scene, "Root"), "Node");
    let scene = paths(&["Root", "Root/Node"]);
    assert_eq!(child_name(&scene, "Root"), "Node2");
    let scene = paths(&["Root", "Root/Node", "Root/Node2", "Other/Node3"]);
    assert_eq!(child_name(&scene, "Root"), "Node3");
}

#[test]
fn a_path_splits_at_its_last_slash() {
    assert_eq!(split_parent("Root/Arm/Hand"), ("Root/Arm".to_string(), "Hand".to_string()));
    assert_eq!(split_parent("Root"), (String::new(), "Root".to_string()));
}

#[test]
fn a_rename_keeps_the_parent_and_skips_no_ops() {
    assert_eq!(rename_target("Root/Lamp", "Light"), Some("Root/Light".to_string()));
    assert_eq!(rename_target("Lamp", "Light"), Some("Light".to_string()));
    assert_eq!(rename_target("Root/Lamp", "Lamp"), None);
    assert_eq!(rename_target("Root/Lamp", ""), None);
}

#[test]
fn a_reparented_node_keeps_its_own_name() {
    assert_eq!(reparent_target("Root/Arm/Hand", "Root/Body"), "Root/Body/Hand");
    assert_eq!(reparent_target("Lamp", "Root"), "Root/Lamp");
}

#[test]
fn a_relocated_subtree_keeps_its_shape() {
    assert_eq!(relocate("Root/Rig", "Root/Rig", "Root/RigCopy"), "Root/RigCopy");
    assert_eq!(relocate("Root/Rig/Arm/Hand", "Root/Rig", "Root/RigCopy"), "Root/RigCopy/Arm/Hand");
    assert_eq!(relocate("Root/Rig", "Root/Rig", "Rig"), "Rig");
}

#[test]
fn a_copied_subtree_lands_under_its_new_root() {
    let nodes = paths(&["Root/Rig", "Root/Rig/Arm", "Root/Rig/Arm/Hand"]);
    let (landings, new_root) = respawn_plan(&nodes, "Root", "RigCopy");
    assert_eq!(new_root, "Root/RigCopy");
    let got: Vec<(String, String, String)> =
        landings.into_iter().map(|l| (l.path, l.parent, l.name)).collect();
    assert_eq!(
        got,
        vec![
            ("Root/RigCopy".to_string(), "Root".to_string(), "RigCopy".to_string()),
            ("Root/RigCopy/Arm".to_string(), "Root/RigCopy".to_string(), "Arm".to_string()),
            ("Root/RigCopy/Arm/Hand".to_string(), "Root/RigCopy/Arm".to_string(), "Hand".to_string()),
        ]
    );
}

#[test]
fn a_subtree_pasted_at_the_top_level_has_no_parent() {
    let nodes = paths(&["Root/Lamp"]);
    let (landings, new_root) = respawn_plan(&nodes, "", "Lamp");
    assert_eq!(new_root, "Lamp");
    assert_eq!(landings[0].path, "Lamp");
    assert_eq!(landings[0].parent, "");
    assert_eq!(landings[0].name, "Lamp");
}

#[test]
fn nothing_captured_lands_nowhere() {
    let (landings, new_root) = respawn_plan(&Vec::new(), "Root", "Copy");
    assert!(landings.is_empty());
    assert_eq!(new_root, "");
}
